//! What the bot decides for each chat command. Reading the command's
//! arguments and sending the replies happen around these functions; each of
//! them takes the parsed arguments, updates the bot's memory and the
//! database, and says which reply is due.

use vstd::prelude::*;
use crate::models::{Game, GameView, Bets, BetView, Users, UserView};
use crate::state::{BetState, BetStateData, GameData, GameSlot, GameSlotView, slot_view, state_code};
use crate::store::{
    lemma_refund_shape, lemma_place_shape, lemma_bet_at, bet_view,
    Database, DbView, coq_of, has_bet, bet_at, place_bet_on, refund_old_bet, create_bet_fits,
    get_coq_of_user, get_bet, create_bet, set_game_state, has_game, game_at, update_game_state,
    get_game, lemma_games_keys_kept, users_who_bet, get_users_bet_color, is_noir, is_blanc, noir, blanc,
    add_coq, add_coq_to_user, lemma_set_coq, db_wf, remove_bets_of_game, delete_game, without_game,
    without_game_bets, lemma_bets_filtered, bet_of_game, bet_key_is, game_key_is, has_user,
    user_of, color_bets, lowest_bets_desc, get_bets_color, get_user, trade_fits, trade_outcome,
    user_exists, trade_coq, lemma_color_bets_from_table, set_coq, users_unique, lemma_user_at,
};

verus! {

broadcast use vstd::std_specs::hash::group_hash_axioms;

/// Whether `id` names an announced game.
pub open spec fn valid_slot(games: Seq<Option<GameSlotView>>, id: int) -> bool {
    0 <= id < games.len() && games[id] is Some
}

fn slot_players(games: &GameData, id: usize) -> (r: (String, String))
    requires
        valid_slot(games@, id as int),
    ensures
        r.0@ == games@[id as int]->0.black,
        r.1@ == games@[id as int]->0.white,
{
    proof { assert(games@[id as int] == slot_view(games.slots@[id as int])); }
    match &games.slots[id] {
        Some(slot) => (slot.black.clone(), slot.white.clone()),
        None => (String::new(), String::new()),
    }
}

// ---------------------------------------------------------------------------
// !noir / !blanc / !black / !white  game_id nb_coq
// ---------------------------------------------------------------------------

/// Why a bet is refused.
#[derive(Debug, Clone, Copy, PartialEq, Eq, Structural)]
pub enum BetError {
    /// The game id or the amount is missing or not a number.
    Usage,
    /// The amount is not above zero.
    NotPositive,
    /// Betting on that game has not started.
    NotStarted,
    /// Betting on that game is over.
    Finished,
    /// No game has that id.
    NoSuchGame,
    /// The user has too few shells.
    NotEnoughCoq,
}

/// The checks made on a bet before its user is looked up.
pub open spec fn bet_request_outcome(states: Map<usize, BetState>, game_id: Option<usize>, nb_coq: Option<i32>) -> Result<(usize, i32), BetError> {
    match (game_id, nb_coq) {
        (Some(id), Some(n)) => {
            if n <= 0 {
                Err(BetError::NotPositive)
            } else if states.contains_key(id) && states[id] == BetState::NotBetting {
                Err(BetError::NotStarted)
            } else if states.contains_key(id) && states[id] == BetState::WaitingResult {
                Err(BetError::Finished)
            } else {
                Ok((id, n))
            }
        },
        _ => Err(BetError::Usage),
    }
}

/// Checks a bet's arguments (`None` where one is missing or unreadable) and
/// that betting on the game is open, before the user is looked up.
pub fn bet_request(states: &BetStateData, game_id: Option<usize>, nb_coq: Option<i32>) -> (r: Result<(usize, i32), BetError>)
    ensures
        r == bet_request_outcome(states@, game_id, nb_coq),
{
    match (game_id, nb_coq) {
        (Some(id), Some(n)) => {
            if n <= 0 {
                return Err(BetError::NotPositive);
            }
            match states.states.get(&id) {
                Some(BetState::NotBetting) => Err(BetError::NotStarted),
                Some(BetState::WaitingResult) => Err(BetError::Finished),
                _ => Ok((id, n)),
            }
        },
        _ => Err(BetError::Usage),
    }
}

/// The shells a user can stake on a game: its own plus what it already
/// staked there.
pub open spec fn available_coq(d: DbView, user_id: Seq<char>, black: Seq<char>, white: Seq<char>) -> int {
    coq_of(d, user_id) + if has_bet(d, user_id, black, white) { bet_at(d, user_id, black, white).bet as int } else { 0 }
}

/// What placing a checked bet does: its result and the database after it.
pub open spec fn bet_outcome(games: Seq<Option<GameSlotView>>, d: DbView, user_id: Seq<char>, color: Seq<char>, game_id: usize, nb_coq: i32) -> (Result<(), BetError>, DbView) {
    if !valid_slot(games, game_id as int) {
        (Err(BetError::NoSuchGame), d)
    } else {
        let slot = games[game_id as int]->0;
        if available_coq(d, user_id, slot.black, slot.white) - nb_coq >= 0 {
            (Ok(()), place_bet_on(refund_old_bet(d, user_id, slot.black, slot.white), user_id, slot.black, slot.white, nb_coq, color))
        } else {
            (Err(BetError::NotEnoughCoq), d)
        }
    }
}

/// The announced game exists in the database and no arithmetic of
/// [`bet_on_color`] leaves `i32`.
pub open spec fn bet_fits(games: Seq<Option<GameSlotView>>, d: DbView, user_id: Seq<char>, color: Seq<char>, game_id: usize, nb_coq: i32) -> bool {
    valid_slot(games, game_id as int) ==> {
        let slot = games[game_id as int]->0;
        &&& i32::MIN <= available_coq(d, user_id, slot.black, slot.white) <= i32::MAX
        &&& i32::MIN <= available_coq(d, user_id, slot.black, slot.white) - nb_coq <= i32::MAX
        &&& available_coq(d, user_id, slot.black, slot.white) - nb_coq >= 0
            ==> create_bet_fits(d, user_id, slot.black, slot.white, nb_coq, color)
    }
}

/// Places a bet of `nb_coq` shells of a user on `color` for the announced
/// game `game_id`, once [`bet_request`] accepted it and the user exists.
pub fn bet_on_color(games: &GameData, db: &mut Database, user_id: String, color: String, game_id: usize, nb_coq: i32) -> (r: Result<(), BetError>)
    requires
        old(db).wf(),
        bet_fits(games@, old(db)@, user_id@, color@, game_id, nb_coq),
    ensures
        final(db).wf(),
        (r, final(db)@) == bet_outcome(games@, old(db)@, user_id@, color@, game_id, nb_coq),
{
    if game_id >= games.slots.len() || games.slots[game_id].is_none() {
        proof {
            if game_id < games.slots.len() {
                assert(games@[game_id as int] == slot_view(games.slots@[game_id as int]));
            }
        }
        return Err(BetError::NoSuchGame);
    }
    proof { assert(games@[game_id as int] == slot_view(games.slots@[game_id as int])); }
    let (black, white) = slot_players(games, game_id);
    let mut coq = get_coq_of_user(user_id.clone(), db);
    if let Some(bet) = get_bet(user_id.clone(), black.clone(), white.clone(), db) {
        coq = coq + bet.bet;
    }
    if coq - nb_coq >= 0 {
        create_bet(user_id, black, white, nb_coq, color, db);
        Ok(())
    } else {
        Err(BetError::NotEnoughCoq)
    }
}

/// Replacing a bet changes the user's shells by its old stake minus the new
/// one, whatever the colours.
proof fn lemma_bet_coq(d: DbView, user_id: Seq<char>, black: Seq<char>, white: Seq<char>, bet: i32, color: Seq<char>)
    requires
        db_wf(d),
        create_bet_fits(d, user_id, black, white, bet, color),
        has_user(d, user_id),
    ensures
        has_user(place_bet_on(refund_old_bet(d, user_id, black, white), user_id, black, white, bet, color), user_id),
        coq_of(place_bet_on(refund_old_bet(d, user_id, black, white), user_id, black, white, bet, color), user_id)
            == available_coq(d, user_id, black, white) - bet,
{
    let d3 = refund_old_bet(d, user_id, black, white);
    if has_bet(d, user_id, black, white) {
        let old = bet_at(d, user_id, black, white);
        lemma_set_coq(d, user_id, (coq_of(d, user_id) + old.bet) as i32);
        let d1 = add_coq(d, user_id, old.bet as int);
        assert(coq_of(d3, user_id) == coq_of(d1, user_id)) by {
            assert(d3.users == d1.users);
        }
        assert(has_user(d3, user_id) == has_user(d1, user_id)) by {
            assert(d3.users == d1.users);
        }
        assert(db_wf(d1));
    }
    assert(users_unique(d3.users)) by {
        if has_bet(d, user_id, black, white) {
            let d1 = add_coq(d, user_id, bet_at(d, user_id, black, white).bet as int);
            assert(d3.users == d1.users);
        }
    }
    let e1 = add_coq(d3, user_id, -bet);
    lemma_user_unique_set_coq(d3, user_id, (coq_of(d3, user_id) - bet) as i32);
    let e = place_bet_on(d3, user_id, black, white, bet, color);
    assert(e.users == e1.users);
    assert(coq_of(e, user_id) == coq_of(e1, user_id));
}

/// A set of users with unique ids keeps them when one user's shells are set.
proof fn lemma_user_unique_set_coq(d: DbView, id: Seq<char>, v: i32)
    requires
        users_unique(d.users),
    ensures
        has_user(set_coq(d, id, v), id) == has_user(d, id),
        has_user(d, id) ==> coq_of(set_coq(d, id, v), id) == v,
{
    let e = set_coq(d, id, v);
    if has_user(d, id) {
        let i = choose|i: int| 0 <= i < d.users.len() && d.users[i].id == id;
        assert(e.users[i].id == id);
        lemma_user_at(e, id, i);
    }
    if has_user(e, id) {
        let i = choose|i: int| 0 <= i < e.users.len() && e.users[i].id == id;
        assert(d.users[i].id == id);
    }
}

/// An accepted bet never leaves its user with fewer than zero shells, and a
/// refused one changes nothing.
pub proof fn law_bet_keeps_shells_non_negative(games: Seq<Option<GameSlotView>>, d: DbView, user_id: Seq<char>, color: Seq<char>, game_id: usize, nb_coq: i32)
    requires
        db_wf(d),
        bet_fits(games, d, user_id, color, game_id, nb_coq),
        has_user(d, user_id),
    ensures
        ({
            let (r, e) = bet_outcome(games, d, user_id, color, game_id, nb_coq);
            &&& r is Ok ==> coq_of(e, user_id) >= 0
            &&& r is Err ==> e == d
        }),
{
    if valid_slot(games, game_id as int) {
        let slot = games[game_id as int]->0;
        if available_coq(d, user_id, slot.black, slot.white) - nb_coq >= 0 {
            lemma_bet_coq(d, user_id, slot.black, slot.white, nb_coq, color);
        }
    }
}

/// A bet on an announced game by an existing user is accepted exactly when
/// the user's shells plus the stake it already has on that game cover it,
/// whatever the colours of the old and the new bet. Once accepted, the user
/// is left with that sum minus the new stake and holds exactly the new bet
/// on the game; a refused bet changes nothing.
pub proof fn law_bet_accepted_when_covered(games: Seq<Option<GameSlotView>>, d: DbView, user_id: Seq<char>, color: Seq<char>, game_id: usize, nb_coq: i32)
    requires
        db_wf(d),
        bet_fits(games, d, user_id, color, game_id, nb_coq),
        valid_slot(games, game_id as int),
        has_user(d, user_id),
    ensures
        ({
            let slot = games[game_id as int]->0;
            let (b, w) = (slot.black, slot.white);
            let stake = if has_bet(d, user_id, b, w) { bet_at(d, user_id, b, w).bet as int } else { 0 };
            let (r, e) = bet_outcome(games, d, user_id, color, game_id, nb_coq);
            &&& r is Ok <==> coq_of(d, user_id) + stake >= nb_coq
            &&& r is Ok ==> {
                &&& coq_of(e, user_id) == coq_of(d, user_id) + stake - nb_coq
                &&& has_bet(e, user_id, b, w)
                &&& bet_at(e, user_id, b, w) == bet_view(user_id, b, w, nb_coq, color)
            }
            &&& r is Err ==> r == Err::<(), BetError>(BetError::NotEnoughCoq) && e == d
        }),
{
    let slot = games[game_id as int]->0;
    let (b, w) = (slot.black, slot.white);
    if available_coq(d, user_id, b, w) - nb_coq >= 0 {
        lemma_bet_coq(d, user_id, b, w, nb_coq, color);
        lemma_refund_shape(d, user_id, b, w, nb_coq, color);
        let d3 = refund_old_bet(d, user_id, b, w);
        lemma_place_shape(d3, user_id, b, w, nb_coq, color);
        let e = place_bet_on(d3, user_id, b, w, nb_coq, color);
        lemma_bet_at(e, user_id, b, w, d3.bets.len() as int);
    }
}

// ---------------------------------------------------------------------------
// !create_game black white
// ---------------------------------------------------------------------------

/// The id a new game gets: the first empty slot, or a new one at the end.
pub open spec fn is_free_slot(games: Seq<Option<GameSlotView>>, id: int) -> bool {
    &&& 0 <= id <= games.len()
    &&& id < games.len() ==> games[id] is None
    &&& forall|j: int| 0 <= j < id ==> (#[trigger] games[j]) is Some
}

/// The id the next announced game gets.
pub fn free_game_slot(games: &GameData) -> (r: usize)
    ensures
        is_free_slot(games@, r as int),
{
    let n = games.slots.len();
    let mut i: usize = 0;
    while i < n
        invariant
            n == games.slots.len(),
            i <= n,
            forall|j: int| 0 <= j < i ==> (#[trigger] games@[j]) is Some,
        decreases n - i,
    {
        proof { assert(games@[i as int] == slot_view(games.slots@[i as int])); }
        if games.slots[i].is_none() {
            return i;
        }
        i = i + 1;
    }
    n
}

/// Records the announced game `black` vs `white` under `index` with its
/// pinned announcement, betting not started.
pub fn register_game(games: &mut GameData, states: &mut BetStateData, index: usize, black: String, white: String, pin: u64)
    requires
        index <= old(games)@.len(),
    ensures
        final(games)@ == if index < old(games)@.len() {
            old(games)@.update(index as int, Some(GameSlotView { black: black@, white: white@, pin: Some(pin) }))
        } else {
            old(games)@.push(Some(GameSlotView { black: black@, white: white@, pin: Some(pin) }))
        },
        final(states)@ == old(states)@.insert(index, BetState::NotBetting),
{
    let ghost g = games@;
    let slot = GameSlot { black, white, pin: Some(pin) };
    if index != games.slots.len() {
        games.slots.set(index, Some(slot));
        assert(games@ =~= g.update(index as int, Some(slot@)));
    } else {
        games.slots.push(Some(slot));
        assert(games@ =~= g.push(Some(slot@)));
    }
    states.states.insert(index, BetState::NotBetting);
}

// ---------------------------------------------------------------------------
// !debut_paris game_id [timeout minutes]
// ---------------------------------------------------------------------------

/// The word that asks for betting to close by itself.
pub open spec fn timeout_word() -> Seq<char> {
    seq!['t', 'i', 'm', 'e', 'o', 'u', 't']
}

/// Reads the arguments of `!debut_paris`: the game id, then optionally the
/// word `timeout` followed by a number of minutes. `None` when the game id
/// is missing, or the word is given without a number.
pub fn start_bets_args(game_id: Option<usize>, word: Option<String>, minutes: Option<u64>) -> (r: Option<(usize, Option<u64>)>)
    ensures
        r == match (game_id, word) {
            (Some(id), Some(w)) => if w@ == timeout_word() {
                match minutes { Some(m) => Some((id, Some(m))), None => None }
            } else { Some((id, None)) },
            (Some(id), None) => Some((id, None)),
            (None, _) => None,
        },
{
    let timeout = match &word {
        Some(w) => {
            let t = String::from_str("timeout");
            proof { reveal_strlit("timeout"); }
            assert(t@ =~= timeout_word());
            *w == t
        },
        None => false,
    };
    match game_id {
        Some(id) => {
            if timeout {
                match minutes {
                    Some(m) => Some((id, Some(m))),
                    None => None,
                }
            } else {
                Some((id, None))
            }
        },
        None => None,
    }
}

/// What `!debut_paris` answers.
#[derive(Debug, Clone, Copy, PartialEq, Eq, Structural)]
pub enum StartOutcome {
    /// No game has that id.
    BadId,
    /// Betting is now open.
    Opened,
    /// Betting was already open.
    AlreadyBetting,
    /// Betting is over and the game awaits its result.
    AwaitingResult,
}

/// Opens betting on the announced game `game_id`, unless it is already open
/// or over; opening it is recorded in the database too.
pub fn start_bets(games: &GameData, states: &mut BetStateData, db: &mut Database, game_id: usize) -> (r: StartOutcome)
    requires
        old(db).wf(),
        game_id < games@.len(),
        games@[game_id as int] is Some ==> old(states)@.contains_key(game_id),
    ensures
        final(db).wf(),
        match games@[game_id as int] {
            None => r == StartOutcome::BadId && final(states)@ == old(states)@ && final(db)@ == old(db)@,
            Some(slot) => match old(states)@[game_id] {
                BetState::NotBetting => {
                    &&& r == StartOutcome::Opened
                    &&& final(states)@ == old(states)@.insert(game_id, BetState::Betting)
                    &&& final(db)@ == set_game_state(old(db)@, slot.black, slot.white, state_code(BetState::Betting))
                },
                BetState::Betting => r == StartOutcome::AlreadyBetting && final(states)@ == old(states)@ && final(db)@ == old(db)@,
                BetState::WaitingResult => r == StartOutcome::AwaitingResult && final(states)@ == old(states)@ && final(db)@ == old(db)@,
            },
        },
{
    proof { assert(games@[game_id as int] == slot_view(games.slots@[game_id as int])); }
    if games.slots[game_id].is_none() {
        return StartOutcome::BadId;
    }
    let (black, white) = slot_players(games, game_id);
    let state = *states.states.get(&game_id).unwrap();
    match state {
        BetState::NotBetting => {
            states.states.insert(game_id, BetState::Betting);
            update_game_state(black, white, BetState::Betting.into(), db);
            StartOutcome::Opened
        },
        BetState::Betting => StartOutcome::AlreadyBetting,
        BetState::WaitingResult => StartOutcome::AwaitingResult,
    }
}

/// Closes betting on game `game_id` when its timeout runs out.
pub fn expire_bets(states: &mut BetStateData, game_id: usize)
    requires
        old(states)@.contains_key(game_id),
    ensures
        final(states)@ == old(states)@.insert(game_id, BetState::WaitingResult),
{
    states.states.insert(game_id, BetState::WaitingResult);
}

// ---------------------------------------------------------------------------
// !fin_paris game_id
// ---------------------------------------------------------------------------

/// Closes betting on the announced game `game_id`, in memory and in the
/// database, and returns the game with its totals.
pub fn end_bets(games: &GameData, states: &mut BetStateData, db: &mut Database, game_id: usize) -> (r: Game)
    requires
        old(db).wf(),
        valid_slot(games@, game_id as int),
        has_game(old(db)@, games@[game_id as int]->0.black, games@[game_id as int]->0.white),
        old(states)@.contains_key(game_id),
    ensures
        final(db).wf(),
        ({
            let slot = games@[game_id as int]->0;
            &&& final(db)@ == set_game_state(old(db)@, slot.black, slot.white, state_code(BetState::WaitingResult))
            &&& has_game(final(db)@, slot.black, slot.white)
            &&& r@ == game_at(final(db)@, slot.black, slot.white)
        }),
        final(states)@ == old(states)@.insert(game_id, BetState::WaitingResult),
{
    let (black, white) = slot_players(games, game_id);
    let ghost d = db@;
    update_game_state(black.clone(), white.clone(), BetState::WaitingResult.into(), db);
    proof { lemma_games_keys_kept(d, db@); }
    assert(has_game(db@, black@, white@));
    let game = get_game(black, white, db).unwrap();
    states.states.insert(game_id, BetState::WaitingResult);
    game
}

// ---------------------------------------------------------------------------
// !resultat game_id couleur
// ---------------------------------------------------------------------------

/// Why `!resultat` is refused.
#[derive(Debug, Clone, Copy, PartialEq, Eq, Structural)]
pub enum ResultError {
    /// The colour is missing or neither `noir` nor `blanc`.
    UsageColor,
    /// The game id is missing or not a number.
    Usage,
    /// No game has that id.
    BadId,
    /// Betting on that game is not over.
    NotStarted,
}

/// The checks `!resultat` makes before paying the winners.
pub open spec fn result_request_outcome(games: Seq<Option<GameSlotView>>, states: Map<usize, BetState>, game_id: Option<usize>, color: Option<Seq<char>>) -> Result<usize, ResultError> {
    if !(color == Some(noir()) || color == Some(blanc())) {
        Err(ResultError::UsageColor)
    } else {
        match game_id {
            None => Err(ResultError::Usage),
            Some(id) => if !valid_slot(games, id as int) {
                Err(ResultError::BadId)
            } else if states[id] != BetState::WaitingResult {
                Err(ResultError::NotStarted)
            } else {
                Ok(id)
            },
        }
    }
}

pub open spec fn opt_view(s: Option<String>) -> Option<Seq<char>> {
    match s {
        Some(t) => Some(t@),
        None => None,
    }
}

/// Checks the arguments of `!resultat` (`None` where one is missing or
/// unreadable) and that betting on the game is over.
pub fn result_request(games: &GameData, states: &BetStateData, game_id: Option<usize>, color: &Option<String>) -> (r: Result<usize, ResultError>)
    requires
        opt_view(*color) == Some(noir()) || opt_view(*color) == Some(blanc())
            ==> forall|id: usize| game_id == Some(id) && valid_slot(games@, id as int) ==> states@.contains_key(id),
    ensures
        r == result_request_outcome(games@, states@, game_id, opt_view(*color)),
{
    let color_ok = match color {
        Some(c) => is_noir(c) || is_blanc(c),
        None => false,
    };
    if !color_ok {
        return Err(ResultError::UsageColor);
    }
    match game_id {
        None => Err(ResultError::Usage),
        Some(id) => {
            if id >= games.slots.len() || games.slots[id].is_none() {
                proof {
                    if id < games.slots.len() {
                        assert(games@[id as int] == slot_view(games.slots@[id as int]));
                    }
                }
                return Err(ResultError::BadId);
            }
            proof { assert(games@[id as int] == slot_view(games.slots@[id as int])); }
            let state = *states.states.get(&id).unwrap();
            if state != BetState::WaitingResult {
                Err(ResultError::NotStarted)
            } else {
                Ok(id)
            }
        },
    }
}

/// `!resultat` is accepted exactly when its colour is `noir` or `blanc`, its
/// id names an announced game, and betting on that game is over; a game
/// whose betting never opened or is still open is refused as not started.
pub proof fn law_result_only_when_betting_over(games: Seq<Option<GameSlotView>>, states: Map<usize, BetState>, game_id: Option<usize>, color: Option<Seq<char>>)
    ensures
        forall|id: usize| #[trigger] result_request_outcome(games, states, game_id, color) == Ok::<usize, ResultError>(id) <==> {
            &&& color == Some(noir()) || color == Some(blanc())
            &&& game_id == Some(id)
            &&& valid_slot(games, id as int)
            &&& states[id] == BetState::WaitingResult
        },
        forall|id: usize| (color == Some(noir()) || color == Some(blanc())) && game_id == Some(id)
            && valid_slot(games, id as int) && #[trigger] states[id] != BetState::WaitingResult
            ==> result_request_outcome(games, states, game_id, color) == Err::<usize, ResultError>(ResultError::NotStarted),
{
}

/// The winners of a game and the totals their gains are computed from.
pub struct ResultPlan {
    /// Each winner's id and stake.
    pub winners: Vec<(String, i32)>,
    /// The total staked on the winning colour.
    pub total_color: i32,
    /// The total staked on the game.
    pub total: i32,
}

pub open spec fn winner_view(w: (String, i32)) -> (Seq<char>, i32) {
    (w.0@, w.1)
}

/// Each user who bet on `color` for a game, with its stake, in table order.
pub open spec fn winners_of(d: DbView, black: Seq<char>, white: Seq<char>, color: Seq<char>) -> Seq<(Seq<char>, i32)> {
    users_who_bet(d, black, white, color).map_values(|u: UserView| (u.id, bet_at(d, u.id, black, white).bet))
}

/// Who won the announced game `game_id` on `color`, and the totals.
pub fn result_plan(games: &GameData, db: &Database, game_id: usize, color: String) -> (r: ResultPlan)
    requires
        db.wf(),
        valid_slot(games@, game_id as int),
        has_game(db@, games@[game_id as int]->0.black, games@[game_id as int]->0.white),
        ({
            let g = game_at(db@, games@[game_id as int]->0.black, games@[game_id as int]->0.white);
            i32::MIN <= g.black_bet + g.white_bet <= i32::MAX
        }),
    ensures
        ({
            let slot = games@[game_id as int]->0;
            let g = game_at(db@, slot.black, slot.white);
            &&& r.winners@.map_values(|w: (String, i32)| winner_view(w)) == winners_of(db@, slot.black, slot.white, color@)
            &&& r.total_color == if color@ == noir() { g.black_bet } else if color@ == blanc() { g.white_bet } else { 0 }
            &&& r.total == g.black_bet + g.white_bet
        }),
{
    let (black, white) = slot_players(games, game_id);
    let game = get_game(black.clone(), white.clone(), db).unwrap();
    let users = match get_users_bet_color(black.clone(), white.clone(), color.clone(), db) {
        Some(u) => u,
        None => Vec::new(),
    };
    let ghost uv = users@.map_values(|u: Users| u@);
    let ghost pred = |u: UserView| has_bet(db@, u.id, black@, white@) && bet_at(db@, u.id, black@, white@).color == color@;
    proof {
        broadcast use vstd::seq_lib::group_filter_ensures;
        assert(uv == db@.users.filter(pred));
        assert forall|i: int| 0 <= i < uv.len() implies #[trigger] has_bet(db@, uv[i].id, black@, white@) by {
            assert(pred(db@.users.filter(pred)[i]));
        }
    }
    let total_color = if is_noir(&color) {
        game.black_bet
    } else if is_blanc(&color) {
        game.white_bet
    } else {
        0
    };
    let total = game.black_bet + game.white_bet;
    let n = users.len();
    let mut winners: Vec<(String, i32)> = Vec::new();
    let mut i: usize = 0;
    while i < n
        invariant
            db.wf(),
            n == users.len(),
            uv == users@.map_values(|u: Users| u@),
            i <= n,
            forall|k: int| 0 <= k < uv.len() ==> #[trigger] has_bet(db@, uv[k].id, black@, white@),
            winners@.map_values(|w: (String, i32)| winner_view(w))
                == uv.take(i as int).map_values(|u: UserView| (u.id, bet_at(db@, u.id, black@, white@).bet)),
        decreases n - i,
    {
        proof {
            assert(uv[i as int] == users@[i as int]@);
            assert(has_bet(db@, uv[i as int].id, black@, white@));
        }
        let bet = get_bet(users[i].id.clone(), black.clone(), white.clone(), db).unwrap();
        let ghost before = winners@;
        winners.push((users[i].id.clone(), bet.bet));
        assert(winners@.map_values(|w: (String, i32)| winner_view(w))
            =~= before.map_values(|w: (String, i32)| winner_view(w)).push((uv[i as int].id, bet_at(db@, uv[i as int].id, black@, white@).bet)));
        assert(winners@.map_values(|w: (String, i32)| winner_view(w))
            =~= uv.take(i + 1).map_values(|u: UserView| (u.id, bet_at(db@, u.id, black@, white@).bet)));
        i = i + 1;
    }
    assert(uv.take(n as int) =~= uv);
    ResultPlan { winners, total_color, total }
}

/// Adds, in order, each amount of `gains` to the shells of its user.
pub open spec fn credit_all(d: DbView, gains: Seq<(Seq<char>, i32)>) -> DbView
    decreases gains.len(),
{
    if gains.len() == 0 {
        d
    } else {
        add_coq(credit_all(d, gains.drop_last()), gains.last().0, gains.last().1 as int)
    }
}

/// No user's shells leave `i32` while `gains` are added in order.
pub open spec fn credit_fits(d: DbView, gains: Seq<(Seq<char>, i32)>) -> bool
    decreases gains.len(),
{
    gains.len() == 0 || {
        &&& credit_fits(d, gains.drop_last())
        &&& i32::MIN <= coq_of(credit_all(d, gains.drop_last()), gains.last().0) + gains.last().1 <= i32::MAX
    }
}

pub proof fn lemma_credit_keeps(d: DbView, gains: Seq<(Seq<char>, i32)>)
    ensures
        credit_all(d, gains).bets == d.bets,
        credit_all(d, gains).games == d.games,
        db_wf(d) ==> db_wf(credit_all(d, gains)),
    decreases gains.len(),
{
    if gains.len() > 0 {
        lemma_credit_keeps(d, gains.drop_last());
        let e = credit_all(d, gains.drop_last());
        if db_wf(d) {
            lemma_set_coq(e, gains.last().0, (coq_of(e, gains.last().0) + gains.last().1) as i32);
        }
    }
}

pub proof fn lemma_credit_fits_prefix(d: DbView, gains: Seq<(Seq<char>, i32)>, i: int)
    requires
        credit_fits(d, gains),
        0 <= i <= gains.len(),
    ensures
        credit_fits(d, gains.take(i)),
        i < gains.len() ==> i32::MIN <= coq_of(credit_all(d, gains.take(i)), gains[i].0) + gains[i].1 <= i32::MAX,
    decreases gains.len(),
{
    if i == gains.len() {
        assert(gains.take(i) =~= gains);
    } else {
        assert(gains.drop_last().take(i) =~= gains.take(i));
        if i == gains.len() - 1 {
            assert(gains.drop_last() =~= gains.take(i));
        } else {
            lemma_credit_fits_prefix(d, gains.drop_last(), i);
            assert(gains.drop_last()[i] == gains[i]);
        }
    }
}

/// What is left to do once a game's result is paid.
#[derive(Debug, Clone, Copy, PartialEq, Eq, Structural)]
pub struct SettleOutcome {
    /// The announcement of the game, to unpin.
    pub pin: Option<u64>,
    /// Whether another announced game remains.
    pub games_left: bool,
}

/// Whether some announced game remains.
pub open spec fn any_game(games: Seq<Option<GameSlotView>>) -> bool {
    exists|j: int| 0 <= j < games.len() && (#[trigger] games[j]) is Some
}

/// Pays each winner its gain, then removes the game's bets, the game and
/// its slot, and forgets its betting state.
pub fn settle_result(games: &mut GameData, states: &mut BetStateData, db: &mut Database, game_id: usize, gains: Vec<(String, i32)>) -> (r: SettleOutcome)
    requires
        old(db).wf(),
        valid_slot(old(games)@, game_id as int),
        credit_fits(old(db)@, gains@.map_values(|w: (String, i32)| winner_view(w))),
    ensures
        final(db).wf(),
        ({
            let slot = old(games)@[game_id as int]->0;
            let credited = credit_all(old(db)@, gains@.map_values(|w: (String, i32)| winner_view(w)));
            &&& final(db)@ == without_game(without_game_bets(credited, slot.black, slot.white), slot.black, slot.white)
            &&& final(games)@ == old(games)@.update(game_id as int, None)
            &&& final(states)@ == old(states)@.remove(game_id)
            &&& r.pin == slot.pin
            &&& r.games_left == any_game(final(games)@)
        }),
{
    let ghost d = db@;
    let ghost gv = gains@.map_values(|w: (String, i32)| winner_view(w));
    let (black, white) = slot_players(games, game_id);
    let n = gains.len();
    let mut k: usize = 0;
    while k < n
        invariant
            n == gains.len(),
            gv == gains@.map_values(|w: (String, i32)| winner_view(w)),
            k <= n,
            credit_fits(d, gv),
            db.wf(),
            db@ == credit_all(d, gv.take(k as int)),
        decreases n - k,
    {
        proof {
            lemma_credit_fits_prefix(d, gv, k as int);
            assert(gv[k as int] == winner_view(gains@[k as int]));
            assert(gv.take(k + 1).drop_last() =~= gv.take(k as int));
        }
        add_coq_to_user(gains[k].0.clone(), gains[k].1, db);
        k = k + 1;
    }
    proof { assert(gv.take(n as int) =~= gv); }
    remove_bets_of_game(black.clone(), white.clone(), db);
    delete_game(black, white, db);
    proof { assert(games@[game_id as int] == slot_view(games.slots@[game_id as int])); }
    let pin = match &games.slots[game_id] {
        Some(slot) => slot.pin,
        None => None,
    };
    let ghost g = games@;
    games.slots.set(game_id, None);
    assert(games@ =~= g.update(game_id as int, None));
    states.states.remove(&game_id);
    let m = games.slots.len();
    let mut left = false;
    let mut j: usize = 0;
    while j < m
        invariant
            m == games.slots.len(),
            j <= m,
            left == exists|t: int| 0 <= t < j && (#[trigger] games@[t]) is Some,
        decreases m - j,
    {
        proof { assert(games@[j as int] == slot_view(games.slots@[j as int])); }
        if games.slots[j].is_some() {
            left = true;
        }
        j = j + 1;
    }
    SettleOutcome { pin, games_left: left }
}

/// After the result of game `game_id` is paid, games remain announced
/// exactly when a slot other than `game_id` holds one.
pub proof fn law_games_left_after_settle(games: Seq<Option<GameSlotView>>, game_id: int)
    requires
        valid_slot(games, game_id),
    ensures
        any_game(games.update(game_id, None))
            <==> exists|j: int| 0 <= j < games.len() && j != game_id && (#[trigger] games[j]) is Some,
{
    let g = games.update(game_id, None);
    if exists|j: int| 0 <= j < games.len() && j != game_id && (#[trigger] games[j]) is Some {
        let j = choose|j: int| 0 <= j < games.len() && j != game_id && (#[trigger] games[j]) is Some;
        assert(g[j] is Some);
    }
    if any_game(g) {
        let j = choose|j: int| 0 <= j < g.len() && (#[trigger] g[j]) is Some;
        assert(games[j] is Some);
    }
}

/// The total of the amounts of `gains` that go to user `id`.
pub open spec fn gain_of(gains: Seq<(Seq<char>, i32)>, id: Seq<char>) -> int
    decreases gains.len(),
{
    if gains.len() == 0 {
        0
    } else {
        gain_of(gains.drop_last(), id) + if gains.last().0 == id { gains.last().1 as int } else { 0 }
    }
}

proof fn lemma_credit_coq(d: DbView, gains: Seq<(Seq<char>, i32)>, id: Seq<char>)
    requires
        db_wf(d),
        credit_fits(d, gains),
    ensures
        has_user(credit_all(d, gains), id) == has_user(d, id),
        has_user(d, id) ==> coq_of(credit_all(d, gains), id) == coq_of(d, id) + gain_of(gains, id),
    decreases gains.len(),
{
    if gains.len() > 0 {
        let p = gains.drop_last();
        lemma_credit_coq(d, p, id);
        lemma_credit_keeps(d, p);
        let e = credit_all(d, p);
        lemma_set_coq(e, gains.last().0, (coq_of(e, gains.last().0) + gains.last().1) as i32);
    }
}

/// Once a result is paid, the game, every bet on it and its slot are gone,
/// and each user received the total of the gains meant for it.
pub proof fn law_settle_clears_game(d: DbView, games: Seq<Option<GameSlotView>>, game_id: int, gains: Seq<(Seq<char>, i32)>)
    requires
        db_wf(d),
        valid_slot(games, game_id),
        credit_fits(d, gains),
    ensures
        ({
            let slot = games[game_id]->0;
            let e = without_game(without_game_bets(credit_all(d, gains), slot.black, slot.white), slot.black, slot.white);
            &&& !has_game(e, slot.black, slot.white)
            &&& forall|u: Seq<char>| !has_bet(e, u, slot.black, slot.white)
            &&& forall|id: Seq<char>| has_user(d, id) ==> #[trigger] coq_of(e, id) == coq_of(d, id) + gain_of(gains, id)
            &&& !valid_slot(games.update(game_id, None), game_id)
        }),
{
    let slot = games[game_id]->0;
    let c = credit_all(d, gains);
    lemma_credit_keeps(d, gains);
    let e1 = without_game_bets(c, slot.black, slot.white);
    lemma_bets_filtered(c, |b: BetView| !bet_of_game(b, slot.black, slot.white));
    let e = without_game(e1, slot.black, slot.white);
    broadcast use vstd::seq_lib::group_filter_ensures;
    assert forall|u: Seq<char>| !has_bet(e, u, slot.black, slot.white) by {
        if has_bet(e, u, slot.black, slot.white) {
            let i = choose|i: int| 0 <= i < e.bets.len() && bet_key_is(e.bets[i], u, slot.black, slot.white);
            assert(!bet_of_game(e1.bets[i], slot.black, slot.white));
        }
    }
    assert(!has_game(e, slot.black, slot.white)) by {
        if has_game(e, slot.black, slot.white) {
            let i = choose|i: int| 0 <= i < e.games.len() && game_key_is(e.games[i], slot.black, slot.white);
            let p = |g: GameView| !game_key_is(g, slot.black, slot.white);
            assert(p(e1.games.filter(p)[i]));
        }
    }
    assert forall|id: Seq<char>| has_user(d, id) implies #[trigger] coq_of(e, id) == coq_of(d, id) + gain_of(gains, id) by {
        lemma_credit_coq(d, gains, id);
        assert(e.users == e1.users);
        assert(e1.users == c.users);
        assert(has_user(e, id) == has_user(c, id));
        assert(coq_of(e, id) == coq_of(c, id));
    }
}

// ---------------------------------------------------------------------------
// !etat / !state  game_id
// ---------------------------------------------------------------------------

/// A game's betting state, totals and lowest bets on each colour, with the
/// name of each bet's user.
pub struct GameStatus {
    pub state: BetState,
    pub game: Game,
    pub black_bets: Vec<Bets>,
    pub black_names: Vec<String>,
    pub white_bets: Vec<Bets>,
    pub white_names: Vec<String>,
}

/// What `!etat` answers.
pub enum StatusOutcome {
    /// The game id is missing or not a number.
    Usage,
    /// No betting state is known for that id.
    UnknownId,
    /// Betting on that game has not started.
    NotStarted,
    /// Betting started or ended but the game's slot is empty.
    NoGame(BetState),
    /// Betting started or ended on that game.
    Status(GameStatus),
}

/// How many bets of each colour `!etat` lists.
pub const STATUS_LIMIT: i64 = 10;

/// Every bet on the game between `black` and `white` belongs to a known user.
pub open spec fn game_bettors_known(d: DbView, black: Seq<char>, white: Seq<char>) -> bool {
    forall|i: int| 0 <= i < d.bets.len() && bet_of_game(d.bets[i], black, white)
        ==> has_user(d, (#[trigger] d.bets[i]).user_id)
}

/// The names of the users of `bets`.
pub open spec fn names_match(d: DbView, bets: Seq<BetView>, names: Seq<Seq<char>>) -> bool {
    &&& names.len() == bets.len()
    &&& forall|i: int| 0 <= i < bets.len() ==> #[trigger] names[i] == user_of(d, bets[i].user_id).name
}

fn names_of(db: &Database, bets: &Vec<Bets>) -> (r: Vec<String>)
    requires
        db.wf(),
        forall|i: int| 0 <= i < bets@.len() ==> has_user(db@, (#[trigger] bets@[i])@.user_id),
    ensures
        names_match(db@, bets@.map_values(|b: Bets| b@), r@.map_values(|s: String| s@)),
{
    let n = bets.len();
    let mut r: Vec<String> = Vec::new();
    let mut i: usize = 0;
    while i < n
        invariant
            db.wf(),
            n == bets.len(),
            i <= n,
            forall|k: int| 0 <= k < bets@.len() ==> has_user(db@, (#[trigger] bets@[k])@.user_id),
            r@.len() == i,
            forall|k: int| 0 <= k < i ==> #[trigger] r@[k]@ == user_of(db@, bets@[k]@.user_id).name,
        decreases n - i,
    {
        proof { assert(has_user(db@, bets@[i as int]@.user_id)); }
        let u = get_user(bets[i].user_id.clone(), db).unwrap();
        r.push(u.name);
        i = i + 1;
    }
    proof {
        let bv = bets@.map_values(|b: Bets| b@);
        let nv = r@.map_values(|s: String| s@);
        assert forall|k: int| 0 <= k < bv.len() implies #[trigger] nv[k] == user_of(db@, bv[k].user_id).name by {
            assert(nv[k] == r@[k]@);
        }
    }
    r
}

/// The bets listed for a colour belong to known users.
proof fn lemma_listed_known(d: DbView, black: Seq<char>, white: Seq<char>, color: Seq<char>, bets: Seq<Bets>)
    requires
        game_bettors_known(d, black, white),
        lowest_bets_desc(color_bets(d, black, white, color), bets.map_values(|b: Bets| b@), STATUS_LIMIT),
    ensures
        forall|i: int| 0 <= i < bets.len() ==> has_user(d, (#[trigger] bets[i])@.user_id),
{
    assert forall|i: int| 0 <= i < bets.len() implies has_user(d, (#[trigger] bets[i])@.user_id) by {
        let bv = bets.map_values(|b: Bets| b@);
        assert(bv[i] == bets[i]@);
        assert(color_bets(d, black, white, color).contains(bv[i]));
        lemma_color_bets_from_table(d, black, white, color, bv[i]);
        let t = choose|t: int| 0 <= t < d.bets.len() && d.bets[t] == bv[i];
        assert(has_user(d, d.bets[t].user_id));
    }
}

/// Whether `bets` lists the lowest bets on `color` the way `!etat` does.
pub open spec fn listed_bets(d: DbView, black: Seq<char>, white: Seq<char>, color: Seq<char>, bets: Seq<BetView>, names: Seq<Seq<char>>) -> bool {
    &&& lowest_bets_desc(color_bets(d, black, white, color), bets, STATUS_LIMIT)
    &&& names_match(d, bets, names)
}

/// Reports where betting stands on game `id`: for an open or closed game,
/// its totals and its ten lowest bets on each colour, highest first. It only
/// reads the announced games, the betting states and the database.
pub fn game_status(games: &GameData, states: &BetStateData, db: &Database, id: Option<usize>) -> (r: StatusOutcome)
    requires
        db.wf(),
        forall|k: usize| id == Some(k) && states@.contains_key(k) && states@[k] != BetState::NotBetting
            ==> k < games@.len(),
        forall|k: usize| id == Some(k) && states@.contains_key(k) && states@[k] != BetState::NotBetting
            && valid_slot(games@, k as int) ==> {
                let slot = games@[k as int]->0;
                &&& has_game(db@, slot.black, slot.white)
                &&& game_bettors_known(db@, slot.black, slot.white)
            },
    ensures
        match id {
            None => r is Usage,
            Some(k) => if !states@.contains_key(k) {
                r is UnknownId
            } else if states@[k] == BetState::NotBetting {
                r is NotStarted
            } else if !valid_slot(games@, k as int) {
                r == StatusOutcome::NoGame(states@[k])
            } else {
                let slot = games@[k as int]->0;
                &&& r is Status
                &&& r->Status_0.state == states@[k]
                &&& r->Status_0.game@ == game_at(db@, slot.black, slot.white)
                &&& listed_bets(db@, slot.black, slot.white, noir(), r->Status_0.black_bets@.map_values(|b: Bets| b@),
                        r->Status_0.black_names@.map_values(|s: String| s@))
                &&& listed_bets(db@, slot.black, slot.white, blanc(), r->Status_0.white_bets@.map_values(|b: Bets| b@),
                        r->Status_0.white_names@.map_values(|s: String| s@))
            },
        },
{
    let k = match id {
        None => return StatusOutcome::Usage,
        Some(k) => k,
    };
    let state = match states.states.get(&k) {
        None => return StatusOutcome::UnknownId,
        Some(s) => *s,
    };
    if state == BetState::NotBetting {
        return StatusOutcome::NotStarted;
    }
    proof { assert(games@[k as int] == slot_view(games.slots@[k as int])); }
    if games.slots[k].is_none() {
        return StatusOutcome::NoGame(state);
    }
    let (black, white) = slot_players(games, k);
    let game = get_game(black.clone(), white.clone(), db).unwrap();
    let noir_color = String::from_str("noir");
    let blanc_color = String::from_str("blanc");
    proof {
        reveal_strlit("noir");
        reveal_strlit("blanc");
    }
    assert(noir_color@ =~= noir());
    assert(blanc_color@ =~= blanc());
    let black_bets = get_bets_color(black.clone(), white.clone(), noir_color.clone(), STATUS_LIMIT, db);
    proof { lemma_listed_known(db@, black@, white@, noir(), black_bets@); }
    let black_names = names_of(db, &black_bets);
    let white_bets = get_bets_color(black.clone(), white.clone(), blanc_color.clone(), STATUS_LIMIT, db);
    proof { lemma_listed_known(db@, black@, white@, blanc(), white_bets@); }
    let white_names = names_of(db, &white_bets);
    StatusOutcome::Status(GameStatus { state, game, black_bets, black_names, white_bets, white_names })
}

// ---------------------------------------------------------------------------
// !give @user nb_coq
// ---------------------------------------------------------------------------

/// The most shells `!give` moves at once.
pub const MAX_GIFT: i32 = 2000;

/// What `!give` answers.
#[derive(Debug, Clone, Copy, PartialEq, Eq, Structural)]
pub enum GiveOutcome {
    /// The receiver or the amount is missing, or the amount is not above zero.
    Usage,
    /// The amount is above the limit.
    TooMuch,
    /// The receiver is not a known user.
    UnknownTarget,
    /// The giver has too few shells.
    TradeFailed,
    /// The shells were given.
    Given,
}

/// Checks the arguments of `!give`: whether the receiver was named, and the
/// amount (`None` when missing or unreadable).
pub fn give_request(named: bool, nb_coq: Option<i32>) -> (r: Result<i32, GiveOutcome>)
    ensures
        r == match nb_coq {
            Some(n) => if !named || n <= 0 {
                Err(GiveOutcome::Usage)
            } else if n > MAX_GIFT {
                Err(GiveOutcome::TooMuch)
            } else {
                Ok(n)
            },
            None => Err(GiveOutcome::Usage),
        },
{
    match nb_coq {
        Some(n) => {
            if !named || n <= 0 {
                Err(GiveOutcome::Usage)
            } else if n > MAX_GIFT {
                Err(GiveOutcome::TooMuch)
            } else {
                Ok(n)
            }
        },
        None => Err(GiveOutcome::Usage),
    }
}

/// Gives `nb_coq` shells of `author_id` to `target_id`, who must be a known
/// user.
pub fn give(author_id: String, target_id: String, nb_coq: i32, db: &mut Database) -> (r: GiveOutcome)
    requires
        old(db).wf(),
        has_user(old(db)@, target_id@) ==> trade_fits(old(db)@, author_id@, target_id@, nb_coq),
    ensures
        final(db).wf(),
        if !has_user(old(db)@, target_id@) {
            r == GiveOutcome::UnknownTarget && final(db)@ == old(db)@
        } else {
            let (t, e) = trade_outcome(old(db)@, author_id@, target_id@, nb_coq);
            &&& final(db)@ == e
            &&& r == if t is Ok { GiveOutcome::Given } else { GiveOutcome::TradeFailed }
        },
{
    if !user_exists(target_id.clone(), db) {
        return GiveOutcome::UnknownTarget;
    }
    match trade_coq(author_id, target_id, nb_coq, db) {
        Ok(()) => GiveOutcome::Given,
        Err(_) => GiveOutcome::TradeFailed,
    }
}

} // verus!
