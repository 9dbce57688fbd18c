//! The betting database: users with their shells and refills, the bets they
//! placed, and the games open to bets. Every operation of the bot's database
//! layer is a function here, specified over [`DbView`].

use vstd::prelude::*;
use crate::models::{Users, UserView, Bets, BetView, Game, GameView};

verus! {

/// Shells given to a user when it is created.
pub const NB_BASE_COQ: i32 = 1000;
/// Refills given to a user when it is created.
pub const NB_BASE_RECHARGE: i32 = 5;
/// Shells granted by one refill or one boost.
pub const NB_COQ_RECHARGE: i32 = 200;

/// Errors of the database operations.
#[derive(Debug, PartialEq, Eq)]
pub enum DbError {
    /// The requested row does not exist.
    NotFound,
    /// The operation was refused and nothing was changed.
    RollbackTransaction,
}

/// The three tables, in insertion order.
pub struct Database {
    users: Vec<Users>,
    bets: Vec<Bets>,
    games: Vec<Game>,
}

/// Mathematical form of the database.
pub struct DbView {
    pub users: Seq<UserView>,
    pub bets: Seq<BetView>,
    pub games: Seq<GameView>,
}

impl View for Database {
    type V = DbView;

    open spec fn view(&self) -> DbView {
        self.model()
    }
}

impl Database {
    pub closed spec fn model(&self) -> DbView {
        DbView {
            users: self.users@.map_values(|u: Users| u@),
            bets: self.bets@.map_values(|b: Bets| b@),
            games: self.games@.map_values(|g: Game| g@),
        }
    }

    /// The tables hold no two rows with the same key.
    pub open spec fn wf(&self) -> bool {
        db_wf(self@)
    }
}

// ---------------------------------------------------------------------------
// Keys and lookups
// ---------------------------------------------------------------------------

pub open spec fn bet_key_is(b: BetView, user_id: Seq<char>, black: Seq<char>, white: Seq<char>) -> bool {
    b.user_id == user_id && b.black == black && b.white == white
}

pub open spec fn bet_of_game(b: BetView, black: Seq<char>, white: Seq<char>) -> bool {
    b.black == black && b.white == white
}

pub open spec fn game_key_is(g: GameView, black: Seq<char>, white: Seq<char>) -> bool {
    g.black == black && g.white == white
}

pub open spec fn users_unique(s: Seq<UserView>) -> bool {
    forall|i: int, j: int| 0 <= i < s.len() && 0 <= j < s.len() && i != j ==> s[i].id != s[j].id
}

pub open spec fn bets_unique(s: Seq<BetView>) -> bool {
    forall|i: int, j: int|
        0 <= i < s.len() && 0 <= j < s.len() && i != j
            ==> !bet_key_is(s[i], s[j].user_id, s[j].black, s[j].white)
}

pub open spec fn games_unique(s: Seq<GameView>) -> bool {
    forall|i: int, j: int|
        0 <= i < s.len() && 0 <= j < s.len() && i != j ==> !game_key_is(s[i], s[j].black, s[j].white)
}

pub open spec fn db_wf(d: DbView) -> bool {
    &&& users_unique(d.users)
    &&& bets_unique(d.bets)
    &&& games_unique(d.games)
}

pub open spec fn has_user(d: DbView, id: Seq<char>) -> bool {
    exists|i: int| 0 <= i < d.users.len() && d.users[i].id == id
}

pub open spec fn user_of(d: DbView, id: Seq<char>) -> UserView {
    d.users[choose|i: int| 0 <= i < d.users.len() && d.users[i].id == id]
}

/// Shells of a user, or -1 when there is no such user.
pub open spec fn coq_of(d: DbView, id: Seq<char>) -> int {
    if has_user(d, id) { user_of(d, id).nb_coq as int } else { -1 }
}

pub open spec fn has_bet(d: DbView, user_id: Seq<char>, black: Seq<char>, white: Seq<char>) -> bool {
    exists|i: int| 0 <= i < d.bets.len() && bet_key_is(d.bets[i], user_id, black, white)
}

pub open spec fn bet_at(d: DbView, user_id: Seq<char>, black: Seq<char>, white: Seq<char>) -> BetView {
    d.bets[choose|i: int| 0 <= i < d.bets.len() && bet_key_is(d.bets[i], user_id, black, white)]
}

pub open spec fn has_game(d: DbView, black: Seq<char>, white: Seq<char>) -> bool {
    exists|i: int| 0 <= i < d.games.len() && game_key_is(d.games[i], black, white)
}

pub open spec fn game_at(d: DbView, black: Seq<char>, white: Seq<char>) -> GameView {
    d.games[choose|i: int| 0 <= i < d.games.len() && game_key_is(d.games[i], black, white)]
}

// ---------------------------------------------------------------------------
// The effect of each primitive update on the tables
// ---------------------------------------------------------------------------

pub open spec fn with_users(d: DbView, users: Seq<UserView>) -> DbView {
    DbView { users, bets: d.bets, games: d.games }
}

pub open spec fn with_bets(d: DbView, bets: Seq<BetView>) -> DbView {
    DbView { users: d.users, bets, games: d.games }
}

pub open spec fn with_games(d: DbView, games: Seq<GameView>) -> DbView {
    DbView { users: d.users, bets: d.bets, games }
}

pub open spec fn new_user(id: Seq<char>, name: Seq<char>) -> UserView {
    UserView { id, name, nb_coq: NB_BASE_COQ, nb_recharge: NB_BASE_RECHARGE }
}

/// Sets the shells of user `id` (no change when there is none).
pub open spec fn set_coq(d: DbView, id: Seq<char>, nb_coq: i32) -> DbView {
    with_users(d, d.users.map_values(|u: UserView|
        if u.id == id { UserView { id: u.id, name: u.name, nb_coq, nb_recharge: u.nb_recharge } } else { u }))
}

/// Adds `n` shells to user `id` (no change when there is none).
pub open spec fn add_coq(d: DbView, id: Seq<char>, n: int) -> DbView {
    set_coq(d, id, (coq_of(d, id) + n) as i32)
}

/// Sets the refills of user `id` (no change when there is none).
pub open spec fn set_recharge(d: DbView, id: Seq<char>, nb_recharge: i32) -> DbView {
    with_users(d, d.users.map_values(|u: UserView|
        if u.id == id { UserView { id: u.id, name: u.name, nb_coq: u.nb_coq, nb_recharge } } else { u }))
}

pub open spec fn without_bet(d: DbView, user_id: Seq<char>, black: Seq<char>, white: Seq<char>) -> DbView {
    with_bets(d, d.bets.filter(|b: BetView| !bet_key_is(b, user_id, black, white)))
}

pub open spec fn without_game_bets(d: DbView, black: Seq<char>, white: Seq<char>) -> DbView {
    with_bets(d, d.bets.filter(|b: BetView| !bet_of_game(b, black, white)))
}

pub open spec fn without_game(d: DbView, black: Seq<char>, white: Seq<char>) -> DbView {
    with_games(d, d.games.filter(|g: GameView| !game_key_is(g, black, white)))
}

pub open spec fn replace_bet(d: DbView, bet: BetView) -> DbView {
    with_bets(d, d.bets.map_values(|b: BetView|
        if bet_key_is(b, bet.user_id, bet.black, bet.white) { bet } else { b }))
}

/// Sets the total of the bets on `color` of a game; only `"noir"` and
/// `"blanc"` name a total, any other colour changes nothing.
pub open spec fn set_game_bet(d: DbView, black: Seq<char>, white: Seq<char>, color: Seq<char>, total: i32) -> DbView {
    with_games(d, d.games.map_values(|g: GameView|
        if game_key_is(g, black, white) && color == noir() {
            GameView { black: g.black, white: g.white, black_bet: total, white_bet: g.white_bet,
                state: g.state, start: g.start, timeout: g.timeout }
        } else if game_key_is(g, black, white) && color == blanc() {
            GameView { black: g.black, white: g.white, black_bet: g.black_bet, white_bet: total,
                state: g.state, start: g.start, timeout: g.timeout }
        } else { g }))
}

pub open spec fn set_game_state(d: DbView, black: Seq<char>, white: Seq<char>, state: i32) -> DbView {
    with_games(d, d.games.map_values(|g: GameView|
        if game_key_is(g, black, white) {
            GameView { black: g.black, white: g.white, black_bet: g.black_bet, white_bet: g.white_bet,
                state, start: g.start, timeout: g.timeout }
        } else { g }))
}

pub open spec fn set_game_start(d: DbView, black: Seq<char>, white: Seq<char>, start: Seq<char>, timeout: i32) -> DbView {
    with_games(d, d.games.map_values(|g: GameView|
        if game_key_is(g, black, white) {
            GameView { black: g.black, white: g.white, black_bet: g.black_bet, white_bet: g.white_bet,
                state: g.state, start, timeout }
        } else { g }))
}

/// The colour of the black player, as bets name it.
pub open spec fn noir() -> Seq<char> {
    seq!['n', 'o', 'i', 'r']
}

/// The colour of the white player, as bets name it.
pub open spec fn blanc() -> Seq<char> {
    seq!['b', 'l', 'a', 'n', 'c']
}

// ---------------------------------------------------------------------------
// Uniqueness gives the row of a key
// ---------------------------------------------------------------------------

pub proof fn lemma_user_at(d: DbView, id: Seq<char>, i: int)
    requires
        users_unique(d.users),
        0 <= i < d.users.len(),
        d.users[i].id == id,
    ensures
        has_user(d, id),
        user_of(d, id) == d.users[i],
        coq_of(d, id) == d.users[i].nb_coq,
{
}

pub proof fn lemma_bet_at(d: DbView, user_id: Seq<char>, black: Seq<char>, white: Seq<char>, i: int)
    requires
        bets_unique(d.bets),
        0 <= i < d.bets.len(),
        bet_key_is(d.bets[i], user_id, black, white),
    ensures
        has_bet(d, user_id, black, white),
        bet_at(d, user_id, black, white) == d.bets[i],
{
}

pub proof fn lemma_game_at(d: DbView, black: Seq<char>, white: Seq<char>, i: int)
    requires
        games_unique(d.games),
        0 <= i < d.games.len(),
        game_key_is(d.games[i], black, white),
    ensures
        has_game(d, black, white),
        game_at(d, black, white) == d.games[i],
{
}

impl Database {
    /// An empty database.
    pub fn new() -> (db: Database)
        ensures
            db.wf(),
            db@.users == Seq::<UserView>::empty(),
            db@.bets == Seq::<BetView>::empty(),
            db@.games == Seq::<GameView>::empty(),
    {
        let db = Database { users: Vec::new(), bets: Vec::new(), games: Vec::new() };
        assert(db@.users =~= Seq::<UserView>::empty());
        assert(db@.bets =~= Seq::<BetView>::empty());
        assert(db@.games =~= Seq::<GameView>::empty());
        db
    }

    /// Builds a database from the rows of its three tables; `None` when two
    /// rows of a table share a key.
    pub fn from_tables(users: Vec<Users>, bets: Vec<Bets>, games: Vec<Game>) -> (r: Option<Database>)
        ensures
            match r {
                Some(db) => {
                    &&& db.wf()
                    &&& db@.users == users@.map_values(|u: Users| u@)
                    &&& db@.bets == bets@.map_values(|b: Bets| b@)
                    &&& db@.games == games@.map_values(|g: Game| g@)
                },
                None => !db_wf(DbView {
                    users: users@.map_values(|u: Users| u@),
                    bets: bets@.map_values(|b: Bets| b@),
                    games: games@.map_values(|g: Game| g@),
                }),
            },
    {
        let db = Database { users, bets, games };
        let ghost d = db@;
        let ok_users = db.users_are_unique();
        let ok_bets = db.bets_are_unique();
        let ok_games = db.games_are_unique();
        if ok_users && ok_bets && ok_games {
            Some(db)
        } else {
            None
        }
    }

    fn users_are_unique(&self) -> (r: bool)
        ensures
            r == users_unique(self@.users),
    {
        let n = self.users.len();
        let ghost s = self@.users;
        let mut i: usize = 0;
        while i < n
            invariant
                n == self.users.len(),
                s == self@.users,
                s.len() == n,
                i <= n,
                forall|a: int, b: int| 0 <= a < i && 0 <= b < n && a != b ==> s[a].id != s[b].id,
            decreases n - i,
        {
            let mut j: usize = 0;
            while j < n
                invariant
                    n == self.users.len(),
                    s == self@.users,
                    s.len() == n,
                    i < n,
                    j <= n,
                    forall|a: int, b: int| 0 <= a < i && 0 <= b < n && a != b ==> s[a].id != s[b].id,
                    forall|b: int| 0 <= b < j && b != i ==> s[i as int].id != s[b].id,
                decreases n - j,
            {
                proof {
                    assert(s[i as int] == self.users@[i as int]@);
                    assert(s[j as int] == self.users@[j as int]@);
                }
                if j != i && self.users[i].id == self.users[j].id {
                    return false;
                }
                j = j + 1;
            }
            i = i + 1;
        }
        true
    }

    fn bets_are_unique(&self) -> (r: bool)
        ensures
            r == bets_unique(self@.bets),
    {
        let n = self.bets.len();
        let ghost s = self@.bets;
        let mut i: usize = 0;
        while i < n
            invariant
                n == self.bets.len(),
                s == self@.bets,
                s.len() == n,
                i <= n,
                forall|a: int, b: int| 0 <= a < i && 0 <= b < n && a != b
                    ==> !bet_key_is(s[a], s[b].user_id, s[b].black, s[b].white),
            decreases n - i,
        {
            let mut j: usize = 0;
            while j < n
                invariant
                    n == self.bets.len(),
                    s == self@.bets,
                    s.len() == n,
                    i < n,
                    j <= n,
                    forall|a: int, b: int| 0 <= a < i && 0 <= b < n && a != b
                        ==> !bet_key_is(s[a], s[b].user_id, s[b].black, s[b].white),
                    forall|b: int| 0 <= b < j && b != i
                        ==> !bet_key_is(s[i as int], s[b].user_id, s[b].black, s[b].white),
                decreases n - j,
            {
                proof {
                    assert(s[i as int] == self.bets@[i as int]@);
                    assert(s[j as int] == self.bets@[j as int]@);
                }
                if j != i && self.bets[i].user_id == self.bets[j].user_id
                    && self.bets[i].black == self.bets[j].black && self.bets[i].white == self.bets[j].white {
                    assert(bet_key_is(s[i as int], s[j as int].user_id, s[j as int].black, s[j as int].white));
                    return false;
                }
                j = j + 1;
            }
            i = i + 1;
        }
        true
    }

    fn games_are_unique(&self) -> (r: bool)
        ensures
            r == games_unique(self@.games),
    {
        let n = self.games.len();
        let ghost s = self@.games;
        let mut i: usize = 0;
        while i < n
            invariant
                n == self.games.len(),
                s == self@.games,
                s.len() == n,
                i <= n,
                forall|a: int, b: int| 0 <= a < i && 0 <= b < n && a != b
                    ==> !game_key_is(s[a], s[b].black, s[b].white),
            decreases n - i,
        {
            let mut j: usize = 0;
            while j < n
                invariant
                    n == self.games.len(),
                    s == self@.games,
                    s.len() == n,
                    i < n,
                    j <= n,
                    forall|a: int, b: int| 0 <= a < i && 0 <= b < n && a != b
                        ==> !game_key_is(s[a], s[b].black, s[b].white),
                    forall|b: int| 0 <= b < j && b != i ==> !game_key_is(s[i as int], s[b].black, s[b].white),
                decreases n - j,
            {
                proof {
                    assert(s[i as int] == self.games@[i as int]@);
                    assert(s[j as int] == self.games@[j as int]@);
                }
                if j != i && self.games[i].black == self.games[j].black && self.games[i].white == self.games[j].white {
                    assert(game_key_is(s[i as int], s[j as int].black, s[j as int].white));
                    return false;
                }
                j = j + 1;
            }
            i = i + 1;
        }
        true
    }

    /// The user rows, for writing the database back.
    pub fn users(&self) -> (r: &Vec<Users>)
        ensures
            r@.map_values(|u: Users| u@) == self@.users,
    {
        &self.users
    }

    /// The bet rows, for writing the database back.
    pub fn bets(&self) -> (r: &Vec<Bets>)
        ensures
            r@.map_values(|b: Bets| b@) == self@.bets,
    {
        &self.bets
    }

    /// The game rows, for writing the database back.
    pub fn games(&self) -> (r: &Vec<Game>)
        ensures
            r@.map_values(|g: Game| g@) == self@.games,
    {
        &self.games
    }

    fn user_index(&self, id: &String) -> (r: Option<usize>)
        requires
            self.wf(),
        ensures
            match r {
                Some(i) => {
                    &&& i < self@.users.len()
                    &&& self@.users[i as int].id == id@
                    &&& has_user(self@, id@)
                    &&& user_of(self@, id@) == self@.users[i as int]
                },
                None => !has_user(self@, id@),
            },
    {
        let n = self.users.len();
        let mut i: usize = 0;
        while i < n
            invariant
                self.wf(),
                n == self.users.len(),
                i <= n,
                forall|k: int| 0 <= k < i ==> self@.users[k].id != id@,
            decreases n - i,
        {
            proof { assert(self@.users[i as int] == self.users@[i as int]@); }
            if self.users[i].id == *id {
                proof { lemma_user_at(self@, id@, i as int); }
                return Some(i);
            }
            i = i + 1;
        }
        None
    }

    fn bet_index(&self, user_id: &String, black: &String, white: &String) -> (r: Option<usize>)
        requires
            self.wf(),
        ensures
            match r {
                Some(i) => {
                    &&& i < self@.bets.len()
                    &&& bet_key_is(self@.bets[i as int], user_id@, black@, white@)
                    &&& has_bet(self@, user_id@, black@, white@)
                    &&& bet_at(self@, user_id@, black@, white@) == self@.bets[i as int]
                },
                None => !has_bet(self@, user_id@, black@, white@),
            },
    {
        let n = self.bets.len();
        let mut i: usize = 0;
        while i < n
            invariant
                self.wf(),
                n == self.bets.len(),
                i <= n,
                forall|k: int| 0 <= k < i ==> !bet_key_is(self@.bets[k], user_id@, black@, white@),
            decreases n - i,
        {
            proof { assert(self@.bets[i as int] == self.bets@[i as int]@); }
            if self.bets[i].user_id == *user_id && self.bets[i].black == *black && self.bets[i].white == *white {
                proof { lemma_bet_at(self@, user_id@, black@, white@, i as int); }
                return Some(i);
            }
            i = i + 1;
        }
        None
    }

    fn game_index(&self, black: &String, white: &String) -> (r: Option<usize>)
        requires
            self.wf(),
        ensures
            match r {
                Some(i) => {
                    &&& i < self@.games.len()
                    &&& game_key_is(self@.games[i as int], black@, white@)
                    &&& has_game(self@, black@, white@)
                    &&& game_at(self@, black@, white@) == self@.games[i as int]
                },
                None => !has_game(self@, black@, white@),
            },
    {
        let n = self.games.len();
        let mut i: usize = 0;
        while i < n
            invariant
                self.wf(),
                n == self.games.len(),
                i <= n,
                forall|k: int| 0 <= k < i ==> !game_key_is(self@.games[k], black@, white@),
            decreases n - i,
        {
            proof { assert(self@.games[i as int] == self.games@[i as int]@); }
            if self.games[i].black == *black && self.games[i].white == *white {
                proof { lemma_game_at(self@, black@, white@, i as int); }
                return Some(i);
            }
            i = i + 1;
        }
        None
    }
}

// ---------------------------------------------------------------------------
// What the primitive user updates keep
// ---------------------------------------------------------------------------

pub proof fn lemma_set_coq(d: DbView, id: Seq<char>, nb_coq: i32)
    requires
        db_wf(d),
    ensures
        db_wf(set_coq(d, id, nb_coq)),
        set_coq(d, id, nb_coq).users.len() == d.users.len(),
        forall|k: Seq<char>| has_user(set_coq(d, id, nb_coq), k) == has_user(d, k),
        forall|k: Seq<char>| #[trigger] coq_of(set_coq(d, id, nb_coq), k)
            == if k == id { if has_user(d, k) { nb_coq as int } else { -1 } } else { coq_of(d, k) },
        forall|k: Seq<char>| has_user(d, k) ==> (#[trigger] user_of(set_coq(d, id, nb_coq), k)).nb_recharge
            == user_of(d, k).nb_recharge,
        forall|k: Seq<char>| has_user(d, k) ==> (#[trigger] user_of(set_coq(d, id, nb_coq), k)).name
            == user_of(d, k).name,
{
    let e = set_coq(d, id, nb_coq);
    assert forall|k: Seq<char>| has_user(e, k) == has_user(d, k) by {
        if has_user(d, k) {
            let i = choose|i: int| 0 <= i < d.users.len() && d.users[i].id == k;
            assert(e.users[i].id == k);
        }
        if has_user(e, k) {
            let i = choose|i: int| 0 <= i < e.users.len() && e.users[i].id == k;
            assert(d.users[i].id == k);
        }
    }
    assert forall|k: Seq<char>| has_user(d, k) implies user_of(e, k) == e.users[
        choose|i: int| 0 <= i < d.users.len() && d.users[i].id == k] by {
        let i = choose|i: int| 0 <= i < d.users.len() && d.users[i].id == k;
        lemma_user_at(e, k, i);
    }
}

pub proof fn lemma_set_recharge(d: DbView, id: Seq<char>, r: i32)
    requires
        db_wf(d),
    ensures
        db_wf(set_recharge(d, id, r)),
        forall|k: Seq<char>| has_user(set_recharge(d, id, r), k) == has_user(d, k),
        forall|k: Seq<char>| #[trigger] coq_of(set_recharge(d, id, r), k) == coq_of(d, k),
        has_user(d, id) ==> user_of(set_recharge(d, id, r), id).nb_recharge == r,
{
    let e = set_recharge(d, id, r);
    assert forall|k: Seq<char>| has_user(e, k) == has_user(d, k) by {
        if has_user(d, k) {
            let i = choose|i: int| 0 <= i < d.users.len() && d.users[i].id == k;
            assert(e.users[i].id == k);
        }
        if has_user(e, k) {
            let i = choose|i: int| 0 <= i < e.users.len() && e.users[i].id == k;
            assert(d.users[i].id == k);
        }
    }
    assert forall|k: Seq<char>| #[trigger] coq_of(e, k) == coq_of(d, k) by {
        if has_user(d, k) {
            let i = choose|i: int| 0 <= i < d.users.len() && d.users[i].id == k;
            lemma_user_at(e, k, i);
        }
    }
    if has_user(d, id) {
        let i = choose|i: int| 0 <= i < d.users.len() && d.users[i].id == id;
        lemma_user_at(e, id, i);
    }
}

// ---------------------------------------------------------------------------
// Users
// ---------------------------------------------------------------------------

/// Adds a user with the base amount of shells and refills.
pub fn create_user(id: String, name: String, db: &mut Database)
    requires
        old(db).wf(),
        !has_user(old(db)@, id@),
    ensures
        final(db).wf(),
        final(db)@ == with_users(old(db)@, old(db)@.users.push(new_user(id@, name@))),
{
    let ghost d = db@;
    let user = Users { id, name, nb_coq: NB_BASE_COQ, nb_recharge: NB_BASE_RECHARGE };
    db.users.push(user);
    assert(db@.users =~= d.users.push(new_user(user.id@, user.name@)));
    assert(db@ == with_users(d, d.users.push(new_user(user.id@, user.name@))));
    assert forall|i: int, j: int| 0 <= i < db@.users.len() && 0 <= j < db@.users.len() && i != j
        implies db@.users[i].id != db@.users[j].id by {
        if i == d.users.len() as int {
            assert(d.users[j].id != user.id@);
        } else if j == d.users.len() as int {
            assert(d.users[i].id != user.id@);
        }
    }
}

/// Whether a user with this id exists.
pub fn user_exists(id: String, db: &Database) -> (r: bool)
    requires
        db.wf(),
    ensures
        r == has_user(db@, id@),
{
    db.user_index(&id).is_some()
}

/// The user with this id, if any.
pub fn get_user(id: String, db: &Database) -> (r: Option<Users>)
    requires
        db.wf(),
    ensures
        match r {
            Some(u) => has_user(db@, id@) && u@ == user_of(db@, id@),
            None => !has_user(db@, id@),
        },
{
    match db.user_index(&id) {
        Some(i) => {
            proof { assert(db@.users[i as int] == db.users@[i as int]@); }
            Some(db.users[i].clone())
        },
        None => None,
    }
}

/// Shells of a user, -1 when there is no such user.
pub fn get_coq_of_user(id: String, db: &Database) -> (r: i32)
    requires
        db.wf(),
    ensures
        r == coq_of(db@, id@),
{
    match db.user_index(&id) {
        Some(i) => {
            proof { assert(db@.users[i as int] == db.users@[i as int]@); }
            db.users[i].nb_coq
        },
        None => -1,
    }
}

fn set_coq_to_user(id: String, nb_coq: i32, db: &mut Database)
    requires
        old(db).wf(),
    ensures
        final(db).wf(),
        final(db)@ == set_coq(old(db)@, id@, nb_coq),
{
    let ghost d = db@;
    proof { lemma_set_coq(d, id@, nb_coq); }
    match db.user_index(&id) {
        Some(i) => {
            proof { assert(d.users[i as int] == db.users@[i as int]@); }
            let mut u = db.users[i].clone();
            u.nb_coq = nb_coq;
            db.users.set(i, u);
            assert forall|k: int| 0 <= k < d.users.len() && k != i implies d.users[k].id != id@ by {}
            assert(db@.users =~= set_coq(d, id@, nb_coq).users);
            assert(db@ == set_coq(d, id@, nb_coq));
        },
        None => {
            assert(db@.users =~= set_coq(d, id@, nb_coq).users);
        },
    }
}

/// Adds `nb_coq` shells (possibly negative) to a user; nothing happens when
/// there is no such user.
pub fn add_coq_to_user(id: String, nb_coq: i32, db: &mut Database)
    requires
        old(db).wf(),
        i32::MIN <= coq_of(old(db)@, id@) + nb_coq <= i32::MAX,
    ensures
        final(db).wf(),
        final(db)@ == add_coq(old(db)@, id@, nb_coq as int),
{
    let coq = get_coq_of_user(id.clone(), db);
    set_coq_to_user(id, coq + nb_coq, db);
}

/// Refills left to a user, `NotFound` when there is no such user.
pub fn get_recharge_user(id: String, db: &Database) -> (r: Result<i32, DbError>)
    requires
        db.wf(),
    ensures
        r == if has_user(db@, id@) { Ok::<i32, DbError>(user_of(db@, id@).nb_recharge) } else { Err(DbError::NotFound) },
{
    match db.user_index(&id) {
        Some(i) => {
            proof { assert(db@.users[i as int] == db.users@[i as int]@); }
            Ok(db.users[i].nb_recharge)
        },
        None => Err(DbError::NotFound),
    }
}

/// Gives a user the shells of one refill without using one.
pub fn boost_user(id: String, db: &mut Database)
    requires
        old(db).wf(),
        coq_of(old(db)@, id@) + NB_COQ_RECHARGE <= i32::MAX,
    ensures
        final(db).wf(),
        final(db)@ == add_coq(old(db)@, id@, NB_COQ_RECHARGE as int),
{
    add_coq_to_user(id, NB_COQ_RECHARGE, db);
}

fn set_recharge_of_user(id: String, nb_recharge: i32, db: &mut Database)
    requires
        old(db).wf(),
    ensures
        final(db).wf(),
        final(db)@ == set_recharge(old(db)@, id@, nb_recharge),
{
    let ghost d = db@;
    proof { lemma_set_recharge(d, id@, nb_recharge); }
    match db.user_index(&id) {
        Some(i) => {
            proof { assert(d.users[i as int] == db.users@[i as int]@); }
            let mut u = db.users[i].clone();
            u.nb_recharge = nb_recharge;
            db.users.set(i, u);
            assert forall|k: int| 0 <= k < d.users.len() && k != i implies d.users[k].id != id@ by {}
            assert(db@.users =~= set_recharge(d, id@, nb_recharge).users);
            assert(db@ == set_recharge(d, id@, nb_recharge));
        },
        None => {
            assert(db@.users =~= set_recharge(d, id@, nb_recharge).users);
        },
    }
}

/// Outcome of [`update_recharge_user`]: its result and the database after it.
pub open spec fn recharge_outcome(d: DbView, id: Seq<char>, modifier: i32) -> (Result<i32, DbError>, DbView) {
    if modifier < 0 && modifier != -1 {
        (Err(DbError::RollbackTransaction), d)
    } else if !has_user(d, id) {
        (Err(DbError::NotFound), d)
    } else if user_of(d, id).nb_recharge <= 0 {
        (Err(DbError::RollbackTransaction), d)
    } else {
        let left = (user_of(d, id).nb_recharge + modifier) as i32;
        (Ok(left), add_coq(set_recharge(d, id, left), id, NB_COQ_RECHARGE as int))
    }
}

/// No arithmetic of [`update_recharge_user`] leaves `i32`.
pub open spec fn recharge_fits(d: DbView, id: Seq<char>, modifier: i32) -> bool {
    (modifier >= -1 && has_user(d, id) && user_of(d, id).nb_recharge > 0) ==> {
        &&& user_of(d, id).nb_recharge + modifier <= i32::MAX
        &&& user_of(d, id).nb_coq + NB_COQ_RECHARGE <= i32::MAX
    }
}

/// Uses (`modifier` is -1) or grants refills of a user; a user with a refill
/// left also receives the shells of one refill. Returns the refills left.
/// Refused when `modifier` is below -1 or the user has no refill left.
pub fn update_recharge_user(id: String, modifier: i32, db: &mut Database) -> (r: Result<i32, DbError>)
    requires
        old(db).wf(),
        recharge_fits(old(db)@, id@, modifier),
    ensures
        final(db).wf(),
        (r, final(db)@) == recharge_outcome(old(db)@, id@, modifier),
{
    if modifier < 0 && modifier != -1 {
        return Err(DbError::RollbackTransaction);
    }
    let nb_recharge = match get_recharge_user(id.clone(), db) {
        Ok(n) => n,
        Err(e) => return Err(e),
    };
    if nb_recharge > 0 {
        let ghost d = db@;
        set_recharge_of_user(id.clone(), nb_recharge + modifier, db);
        proof { lemma_set_recharge(d, id@, (nb_recharge + modifier) as i32); }
        add_coq_to_user(id, NB_COQ_RECHARGE, db);
        Ok(nb_recharge + modifier)
    } else {
        Err(DbError::RollbackTransaction)
    }
}

/// Outcome of [`trade_coq`]: its result and the database after it.
pub open spec fn trade_outcome(d: DbView, id_src: Seq<char>, id_dst: Seq<char>, nb_coq: i32) -> (Result<(), DbError>, DbView) {
    if coq_of(d, id_src) - nb_coq >= 0 {
        (Ok(()), add_coq(add_coq(d, id_src, -nb_coq), id_dst, nb_coq as int))
    } else {
        (Err(DbError::RollbackTransaction), d)
    }
}

/// No arithmetic of [`trade_coq`] leaves `i32`.
pub open spec fn trade_fits(d: DbView, id_src: Seq<char>, id_dst: Seq<char>, nb_coq: i32) -> bool {
    &&& nb_coq != i32::MIN
    &&& i32::MIN <= coq_of(d, id_src) - nb_coq <= i32::MAX
    &&& coq_of(d, id_src) - nb_coq >= 0
        ==> i32::MIN <= coq_of(add_coq(d, id_src, -nb_coq), id_dst) + nb_coq <= i32::MAX
}

/// Moves `nb_coq` shells from one user to another, refused when the giver
/// would be left with fewer than zero (a missing giver counts -1 shells).
pub fn trade_coq(id_src: String, id_dst: String, nb_coq: i32, db: &mut Database) -> (r: Result<(), DbError>)
    requires
        old(db).wf(),
        trade_fits(old(db)@, id_src@, id_dst@, nb_coq),
    ensures
        final(db).wf(),
        (r, final(db)@) == trade_outcome(old(db)@, id_src@, id_dst@, nb_coq),
{
    let coq = get_coq_of_user(id_src.clone(), db);
    if coq - nb_coq >= 0 {
        let ghost d = db@;
        proof { lemma_set_coq(d, id_src@, (coq - nb_coq) as i32); }
        add_coq_to_user(id_src, -nb_coq, db);
        add_coq_to_user(id_dst, nb_coq, db);
        Ok(())
    } else {
        Err(DbError::RollbackTransaction)
    }
}

// ---------------------------------------------------------------------------
// Colours
// ---------------------------------------------------------------------------

/// Whether a colour is the black player's.
pub fn is_noir(color: &String) -> (r: bool)
    ensures
        r == (color@ == noir()),
{
    let n = String::from_str("noir");
    proof { reveal_strlit("noir"); }
    assert(n@ =~= noir());
    *color == n
}

/// Whether a colour is the white player's.
pub fn is_blanc(color: &String) -> (r: bool)
    ensures
        r == (color@ == blanc()),
{
    let b = String::from_str("blanc");
    proof { reveal_strlit("blanc"); }
    assert(b@ =~= blanc());
    *color == b
}

// ---------------------------------------------------------------------------
// What the primitive game updates keep
// ---------------------------------------------------------------------------

/// A map over the game rows that keeps each row's key keeps the keys known.
pub proof fn lemma_games_keys_kept(d: DbView, e: DbView)
    requires
        db_wf(d),
        e.users == d.users,
        e.bets == d.bets,
        e.games.len() == d.games.len(),
        forall|i: int| 0 <= i < d.games.len() ==> (#[trigger] e.games[i]).black == d.games[i].black
            && e.games[i].white == d.games[i].white,
    ensures
        db_wf(e),
        forall|b: Seq<char>, w: Seq<char>| #[trigger] has_game(e, b, w) == has_game(d, b, w),
        forall|b: Seq<char>, w: Seq<char>| has_game(d, b, w) ==> exists|i: int|
            0 <= i < d.games.len() && game_key_is(d.games[i], b, w) && #[trigger] game_at(e, b, w) == e.games[i]
            && game_at(d, b, w) == d.games[i],
{
    assert forall|b: Seq<char>, w: Seq<char>| #[trigger] has_game(e, b, w) == has_game(d, b, w) by {
        if has_game(d, b, w) {
            let i = choose|i: int| 0 <= i < d.games.len() && game_key_is(d.games[i], b, w);
            assert(game_key_is(e.games[i], b, w));
        }
        if has_game(e, b, w) {
            let i = choose|i: int| 0 <= i < e.games.len() && game_key_is(e.games[i], b, w);
            assert(game_key_is(d.games[i], b, w));
        }
    }
    assert forall|i: int, j: int| 0 <= i < e.games.len() && 0 <= j < e.games.len() && i != j
        implies !game_key_is(e.games[i], e.games[j].black, e.games[j].white) by {
        assert(!game_key_is(d.games[i], d.games[j].black, d.games[j].white));
    }
    assert forall|b: Seq<char>, w: Seq<char>| has_game(d, b, w) implies exists|i: int|
        0 <= i < d.games.len() && game_key_is(d.games[i], b, w) && #[trigger] game_at(e, b, w) == e.games[i]
            && game_at(d, b, w) == d.games[i] by {
        let i = choose|i: int| 0 <= i < d.games.len() && game_key_is(d.games[i], b, w);
        lemma_game_at(d, b, w, i);
        lemma_game_at(e, b, w, i);
    }
}

// ---------------------------------------------------------------------------
// Games
// ---------------------------------------------------------------------------

/// A game between `black` and `white` with no bet yet, no betting state and
/// no betting window.
pub open spec fn new_game(black: Seq<char>, white: Seq<char>) -> GameView {
    GameView { black, white, black_bet: 0, white_bet: 0, state: 0, start: Seq::empty(), timeout: 0 }
}

/// Adds a game with no bet yet.
pub fn create_game(black: String, white: String, db: &mut Database)
    requires
        old(db).wf(),
        !has_game(old(db)@, black@, white@),
    ensures
        final(db).wf(),
        final(db)@ == with_games(old(db)@, old(db)@.games.push(new_game(black@, white@))),
{
    let ghost d = db@;
    let game = Game {
        black,
        white,
        black_bet: 0,
        white_bet: 0,
        state: 0,
        start: String::new(),
        timeout: 0,
    };
    db.games.push(game);
    assert(game@.start =~= Seq::<char>::empty());
    assert(db@.games =~= d.games.push(new_game(game.black@, game.white@)));
    assert forall|i: int, j: int| 0 <= i < db@.games.len() && 0 <= j < db@.games.len() && i != j
        implies !game_key_is(db@.games[i], db@.games[j].black, db@.games[j].white) by {
        if i == d.games.len() as int {
            assert(!game_key_is(d.games[j], game.black@, game.white@));
        } else if j == d.games.len() as int {
            assert(!game_key_is(d.games[i], game.black@, game.white@));
        }
    }
}

/// The game between `black` and `white`, if any.
pub fn get_game(black: String, white: String, db: &Database) -> (r: Option<Game>)
    requires
        db.wf(),
    ensures
        match r {
            Some(g) => has_game(db@, black@, white@) && g@ == game_at(db@, black@, white@),
            None => !has_game(db@, black@, white@),
        },
{
    match db.game_index(&black, &white) {
        Some(i) => {
            proof { assert(db@.games[i as int] == db.games@[i as int]@); }
            Some(db.games[i].clone())
        },
        None => None,
    }
}

/// All the games, in the order they were created.
pub fn get_games(db: &Database) -> (r: Vec<Game>)
    ensures
        r@.map_values(|g: Game| g@) == db@.games,
{
    let n = db.games.len();
    let mut r: Vec<Game> = Vec::new();
    let mut i: usize = 0;
    while i < n
        invariant
            n == db.games.len(),
            i <= n,
            r@.map_values(|g: Game| g@) == db@.games.take(i as int),
        decreases n - i,
    {
        proof { assert(db@.games[i as int] == db.games@[i as int]@); }
        let ghost before = r@;
        r.push(db.games[i].clone());
        assert(r@.map_values(|g: Game| g@) =~= before.map_values(|g: Game| g@).push(db@.games[i as int]));
        assert(r@.map_values(|g: Game| g@) =~= db@.games.take(i + 1));
        i = i + 1;
    }
    assert(db@.games.take(n as int) =~= db@.games);
    r
}

fn replace_game(db: &mut Database, i: usize, g: Game)
    requires
        old(db).wf(),
        i < old(db)@.games.len(),
        g.black@ == old(db)@.games[i as int].black,
        g.white@ == old(db)@.games[i as int].white,
    ensures
        final(db)@ == with_games(old(db)@, old(db)@.games.update(i as int, g@)),
        final(db).wf(),
{
    let ghost d = db@;
    db.games.set(i, g);
    assert(db@.games =~= d.games.update(i as int, g@));
    assert(db@ == with_games(d, d.games.update(i as int, g@)));
    proof { lemma_games_keys_kept(d, db@); }
}

/// Sets the total of the bets on `color` for a game; only `"noir"` and
/// `"blanc"` name a total.
pub fn update_game_bet(black: String, white: String, color: String, new_total: i32, db: &mut Database)
    requires
        old(db).wf(),
    ensures
        final(db).wf(),
        final(db)@ == set_game_bet(old(db)@, black@, white@, color@, new_total),
{
    let ghost d = db@;
    let noir = is_noir(&color);
    let blanc = is_blanc(&color);
    if noir || blanc {
        match db.game_index(&black, &white) {
            Some(i) => {
                proof { assert(d.games[i as int] == db.games@[i as int]@); }
                let mut g = db.games[i].clone();
                if noir {
                    g.black_bet = new_total;
                } else {
                    g.white_bet = new_total;
                }
                replace_game(db, i, g);
                assert forall|k: int| 0 <= k < d.games.len() && k != i implies
                    !game_key_is(d.games[k], black@, white@) by {}
                assert(db@.games =~= set_game_bet(d, black@, white@, color@, new_total).games);
            },
            None => {
                assert(db@.games =~= set_game_bet(d, black@, white@, color@, new_total).games);
            },
        }
    } else {
        assert(db@.games =~= set_game_bet(d, black@, white@, color@, new_total).games);
    }
}

/// Sets the betting state of a game.
pub fn update_game_state(black: String, white: String, state: i32, db: &mut Database)
    requires
        old(db).wf(),
    ensures
        final(db).wf(),
        final(db)@ == set_game_state(old(db)@, black@, white@, state),
{
    let ghost d = db@;
    match db.game_index(&black, &white) {
        Some(i) => {
            proof { assert(d.games[i as int] == db.games@[i as int]@); }
            let mut g = db.games[i].clone();
            g.state = state;
            replace_game(db, i, g);
            assert forall|k: int| 0 <= k < d.games.len() && k != i implies
                !game_key_is(d.games[k], black@, white@) by {}
            assert(db@.games =~= set_game_state(d, black@, white@, state).games);
        },
        None => {
            assert(db@.games =~= set_game_state(d, black@, white@, state).games);
        },
    }
}

/// Sets when the betting window of a game started and how long it lasts.
pub fn update_game_start(black: String, white: String, start: String, timeout: i32, db: &mut Database)
    requires
        old(db).wf(),
    ensures
        final(db).wf(),
        final(db)@ == set_game_start(old(db)@, black@, white@, start@, timeout),
{
    let ghost d = db@;
    match db.game_index(&black, &white) {
        Some(i) => {
            proof { assert(d.games[i as int] == db.games@[i as int]@); }
            let mut g = db.games[i].clone();
            g.start = start;
            g.timeout = timeout;
            replace_game(db, i, g);
            assert forall|k: int| 0 <= k < d.games.len() && k != i implies
                !game_key_is(d.games[k], black@, white@) by {}
            assert(db@.games =~= set_game_start(d, black@, white@, g.start@, timeout).games);
        },
        None => {
            assert(db@.games =~= set_game_start(d, black@, white@, start@, timeout).games);
        },
    }
}

/// Removes the game between `black` and `white`.
pub fn delete_game(black: String, white: String, db: &mut Database)
    requires
        old(db).wf(),
    ensures
        final(db).wf(),
        final(db)@ == without_game(old(db)@, black@, white@),
{
    let ghost d = db@;
    let n = db.games.len();
    let mut kept: Vec<Game> = Vec::new();
    let mut i: usize = 0;
    while i < n
        invariant
            db@ == d,
            db_wf(d),
            n == d.games.len(),
            i <= n,
            kept@.map_values(|g: Game| g@) == d.games.take(i as int).filter(|g: GameView| !game_key_is(g, black@, white@)),
            games_unique(kept@.map_values(|g: Game| g@)),
            forall|k: int| 0 <= k < kept@.len() ==> exists|j: int| 0 <= j < i && #[trigger] kept@[k]@ == d.games[j],
        decreases n - i,
    {
        proof {
            assert(d.games[i as int] == db.games@[i as int]@);
            reveal_with_fuel(Seq::filter, 1);
            assert(d.games.take(i + 1).drop_last() =~= d.games.take(i as int));
        }
        let keep = !(db.games[i].black == black && db.games[i].white == white);
        if keep {
            let ghost before = kept@;
            kept.push(db.games[i].clone());
            proof {
                let kv = kept@.map_values(|g: Game| g@);
                assert(kv =~= before.map_values(|g: Game| g@).push(d.games[i as int]));
                assert forall|a: int, b: int| 0 <= a < kv.len() && 0 <= b < kv.len() && a != b
                    implies !game_key_is(kv[a], kv[b].black, kv[b].white) by {
                    if a == before.len() as int {
                        let j = choose|j: int| 0 <= j < i && #[trigger] before[b]@ == d.games[j];
                        assert(kv[b] == before[b]@);
                    } else if b == before.len() as int {
                        let j = choose|j: int| 0 <= j < i && #[trigger] before[a]@ == d.games[j];
                        assert(kv[a] == before[a]@);
                    } else {
                        assert(kv[a] == before.map_values(|g: Game| g@)[a]);
                        assert(kv[b] == before.map_values(|g: Game| g@)[b]);
                    }
                }
                assert forall|k: int| 0 <= k < kept@.len() implies exists|j: int| 0 <= j < i + 1 && #[trigger] kept@[k]@ == d.games[j] by {
                    if k < before.len() {
                        assert(kept@[k] == before[k]);
                    } else {
                        assert(kept@[k]@ == d.games[i as int]);
                    }
                }
            }
        }
        i = i + 1;
    }
    proof { assert(d.games.take(n as int) =~= d.games); }
    db.games = kept;
    assert(db@ == without_game(d, black@, white@));
}

// ---------------------------------------------------------------------------
// Bets
// ---------------------------------------------------------------------------

pub open spec fn bet_view(user_id: Seq<char>, black: Seq<char>, white: Seq<char>, bet: i32, color: Seq<char>) -> BetView {
    BetView { user_id, black, white, bet, color }
}

/// Removing the bets that match a predicate keeps the other tables, keeps
/// the keys unique, and leaves no bet matching it.
pub proof fn lemma_bets_filtered(d: DbView, pred: spec_fn(BetView) -> bool)
    requires
        db_wf(d),
    ensures
        db_wf(with_bets(d, d.bets.filter(pred))),
        forall|i: int| 0 <= i < d.bets.filter(pred).len() ==> pred(#[trigger] d.bets.filter(pred)[i]),
        forall|i: int| 0 <= i < d.bets.len() && pred(d.bets[i]) ==> #[trigger] d.bets.filter(pred).contains(d.bets[i]),
        forall|b: BetView| d.bets.filter(pred).contains(b) ==> d.bets.contains(b),
    decreases d.bets.len(),
{
    broadcast use vstd::seq_lib::group_filter_ensures;
    let f = d.bets.filter(pred);
    assert forall|b: BetView| f.contains(b) implies d.bets.contains(b) by {
        d.bets.lemma_filter_contains_rev(pred, b);
    }
    assert forall|i: int, j: int| 0 <= i < f.len() && 0 <= j < f.len() && i != j
        implies !bet_key_is(f[i], f[j].user_id, f[j].black, f[j].white) by {
        lemma_filter_unique_bets(d.bets, pred, i, j);
    }
}

proof fn lemma_filter_unique_bets(s: Seq<BetView>, pred: spec_fn(BetView) -> bool, i: int, j: int)
    requires
        bets_unique(s),
        0 <= i < s.filter(pred).len(),
        0 <= j < s.filter(pred).len(),
        i != j,
    ensures
        !bet_key_is(s.filter(pred)[i], s.filter(pred)[j].user_id, s.filter(pred)[j].black, s.filter(pred)[j].white),
    decreases s.len(),
{
    reveal_with_fuel(Seq::filter, 1);
    broadcast use vstd::seq_lib::group_filter_ensures;
    let f = s.filter(pred);
    let p = s.drop_last();
    let fp = p.filter(pred);
    assert(bets_unique(p)) by {
        assert forall|a: int, b: int| 0 <= a < p.len() && 0 <= b < p.len() && a != b
            implies !bet_key_is(p[a], p[b].user_id, p[b].black, p[b].white) by {
            assert(p[a] == s[a] && p[b] == s[b]);
        }
    }
    if pred(s.last()) {
        assert(f == fp.push(s.last()));
        if i < fp.len() && j < fp.len() {
            lemma_filter_unique_bets(p, pred, i, j);
            assert(f[i] == fp[i] && f[j] == fp[j]);
        } else {
            let k = if i < fp.len() { i } else { j };
            assert(fp.contains(f[k]));
            p.lemma_filter_contains_rev(pred, f[k]);
            let m = choose|m: int| 0 <= m < p.len() && p[m] == f[k];
            assert(s[m] == p[m]);
            assert(!bet_key_is(s[m], s[s.len() - 1].user_id, s[s.len() - 1].black, s[s.len() - 1].white));
        }
    } else {
        assert(f == fp);
        lemma_filter_unique_bets(p, pred, i, j);
    }
}

/// Adds a bet.
pub fn add_bet(user_id: String, black: String, white: String, bet: i32, color: String, db: &mut Database)
    requires
        old(db).wf(),
        !has_bet(old(db)@, user_id@, black@, white@),
    ensures
        final(db).wf(),
        final(db)@ == with_bets(old(db)@, old(db)@.bets.push(bet_view(user_id@, black@, white@, bet, color@))),
{
    let ghost d = db@;
    let b = Bets { user_id, black, white, bet, color };
    db.bets.push(b);
    assert(db@.bets =~= d.bets.push(b@));
    assert forall|i: int, j: int| 0 <= i < db@.bets.len() && 0 <= j < db@.bets.len() && i != j
        implies !bet_key_is(db@.bets[i], db@.bets[j].user_id, db@.bets[j].black, db@.bets[j].white) by {
        if i == d.bets.len() as int {
            assert(!bet_key_is(d.bets[j], b.user_id@, b.black@, b.white@));
        } else if j == d.bets.len() as int {
            assert(!bet_key_is(d.bets[i], b.user_id@, b.black@, b.white@));
        }
    }
}

/// The bet of a user on a game, if any.
pub fn get_bet(user_id: String, black: String, white: String, db: &Database) -> (r: Option<Bets>)
    requires
        db.wf(),
    ensures
        match r {
            Some(b) => has_bet(db@, user_id@, black@, white@) && b@ == bet_at(db@, user_id@, black@, white@),
            None => !has_bet(db@, user_id@, black@, white@),
        },
{
    match db.bet_index(&user_id, &black, &white) {
        Some(i) => {
            proof { assert(db@.bets[i as int] == db.bets@[i as int]@); }
            Some(db.bets[i].clone())
        },
        None => None,
    }
}

/// Replaces the bet that has the same user and game as `bet`; nothing
/// happens when there is none.
pub fn update_bet(bet: Bets, db: &mut Database)
    requires
        old(db).wf(),
    ensures
        final(db).wf(),
        final(db)@ == replace_bet(old(db)@, bet@),
{
    let ghost d = db@;
    let ghost bv = bet@;
    match db.bet_index(&bet.user_id, &bet.black, &bet.white) {
        Some(i) => {
            db.bets.set(i, bet);
            assert forall|k: int| 0 <= k < d.bets.len() && k != i implies
                !bet_key_is(d.bets[k], bv.user_id, bv.black, bv.white) by {}
            assert(db@.bets =~= replace_bet(d, bv).bets);
            assert forall|a: int, b: int| 0 <= a < db@.bets.len() && 0 <= b < db@.bets.len() && a != b
                implies !bet_key_is(db@.bets[a], db@.bets[b].user_id, db@.bets[b].black, db@.bets[b].white) by {
                assert(!bet_key_is(d.bets[a], d.bets[b].user_id, d.bets[b].black, d.bets[b].white));
            }
        },
        None => {
            assert(db@.bets =~= replace_bet(d, bv).bets);
        },
    }
}

/// Keeps the bets for which `remove` is false; with `user_id` given it
/// removes the bet of that user on the game, otherwise every bet on the game.
fn retain_bets(db: &mut Database, user_id: Option<&String>, black: &String, white: &String)
    requires
        old(db).wf(),
    ensures
        final(db).wf(),
        final(db)@ == match user_id {
            Some(u) => without_bet(old(db)@, u@, black@, white@),
            None => without_game_bets(old(db)@, black@, white@),
        },
{
    let ghost d = db@;
    let ghost pred = match user_id {
        Some(u) => |b: BetView| !bet_key_is(b, u@, black@, white@),
        None => |b: BetView| !bet_of_game(b, black@, white@),
    };
    let n = db.bets.len();
    let mut kept: Vec<Bets> = Vec::new();
    let mut i: usize = 0;
    while i < n
        invariant
            db@ == d,
            n == d.bets.len(),
            i <= n,
            pred == match user_id {
                Some(u) => |b: BetView| !bet_key_is(b, u@, black@, white@),
                None => |b: BetView| !bet_of_game(b, black@, white@),
            },
            kept@.map_values(|b: Bets| b@) == d.bets.take(i as int).filter(pred),
        decreases n - i,
    {
        proof {
            assert(d.bets[i as int] == db.bets@[i as int]@);
            reveal_with_fuel(Seq::filter, 1);
            assert(d.bets.take(i + 1).drop_last() =~= d.bets.take(i as int));
        }
        let same_game = db.bets[i].black == *black && db.bets[i].white == *white;
        let remove = match user_id {
            Some(u) => same_game && db.bets[i].user_id == *u,
            None => same_game,
        };
        if !remove {
            let ghost before = kept@;
            kept.push(db.bets[i].clone());
            assert(kept@.map_values(|b: Bets| b@) =~= before.map_values(|b: Bets| b@).push(d.bets[i as int]));
        } else {
        }
        i = i + 1;
    }
    proof {
        assert(d.bets.take(n as int) =~= d.bets);
        lemma_bets_filtered(d, pred);
    }
    db.bets = kept;
    assert(db@ == with_bets(d, d.bets.filter(pred)));
}

fn remove_bet(bet: Bets, db: &mut Database)
    requires
        old(db).wf(),
    ensures
        final(db).wf(),
        final(db)@ == without_bet(old(db)@, bet.user_id@, bet.black@, bet.white@),
{
    retain_bets(db, Some(&bet.user_id), &bet.black, &bet.white);
}

/// Removes every bet on the game between `black` and `white`.
pub fn remove_bets_of_game(black: String, white: String, db: &mut Database)
    requires
        old(db).wf(),
    ensures
        final(db).wf(),
        final(db)@ == without_game_bets(old(db)@, black@, white@),
{
    retain_bets(db, None, &black, &white);
}

/// The database once the bet of `user_id` on the game is taken back: its
/// shells return to the user, leave the total of its colour, and the bet is
/// removed. Nothing changes when there is no such bet.
pub open spec fn refund_old_bet(d: DbView, user_id: Seq<char>, black: Seq<char>, white: Seq<char>) -> DbView {
    if has_bet(d, user_id, black, white) {
        let old = bet_at(d, user_id, black, white);
        let d1 = add_coq(d, user_id, old.bet as int);
        let g = game_at(d1, black, white);
        let d2 = if old.color == noir() {
            set_game_bet(d1, black, white, old.color, (g.black_bet - old.bet) as i32)
        } else if old.color == blanc() {
            set_game_bet(d1, black, white, old.color, (g.white_bet - old.bet) as i32)
        } else {
            d1
        };
        without_bet(d2, user_id, black, white)
    } else {
        d
    }
}

/// The database once `user_id` stakes `bet` shells on `color`: they leave the
/// user, join the total of that colour, and the bet is recorded.
pub open spec fn place_bet_on(d: DbView, user_id: Seq<char>, black: Seq<char>, white: Seq<char>, bet: i32, color: Seq<char>) -> DbView {
    let d1 = add_coq(d, user_id, -bet);
    let g = game_at(d1, black, white);
    let d2 = if color == noir() {
        set_game_bet(d1, black, white, color, (g.black_bet + bet) as i32)
    } else if color == blanc() {
        set_game_bet(d1, black, white, color, (g.white_bet + bet) as i32)
    } else {
        d1
    };
    with_bets(d2, d2.bets.push(bet_view(user_id, black, white, bet, color)))
}

/// The game exists and no arithmetic of [`create_bet`] leaves `i32`.
pub open spec fn create_bet_fits(d: DbView, user_id: Seq<char>, black: Seq<char>, white: Seq<char>, bet: i32, color: Seq<char>) -> bool {
    &&& has_game(d, black, white)
    &&& has_bet(d, user_id, black, white) ==> {
        let old = bet_at(d, user_id, black, white);
        &&& i32::MIN <= coq_of(d, user_id) + old.bet <= i32::MAX
        &&& old.color == noir() ==> i32::MIN <= game_at(d, black, white).black_bet - old.bet <= i32::MAX
        &&& old.color == blanc() ==> i32::MIN <= game_at(d, black, white).white_bet - old.bet <= i32::MAX
    }
    &&& {
        let d1 = refund_old_bet(d, user_id, black, white);
        &&& bet != i32::MIN
        &&& i32::MIN <= coq_of(d1, user_id) - bet <= i32::MAX
        &&& color == noir() ==> i32::MIN <= game_at(d1, black, white).black_bet + bet <= i32::MAX
        &&& color == blanc() ==> i32::MIN <= game_at(d1, black, white).white_bet + bet <= i32::MAX
    }
}

/// Puts `bet` shells of a user on `color` for a game. A bet the user already
/// had on that game is taken back first.
pub fn create_bet(user_id: String, black: String, white: String, bet: i32, color: String, db: &mut Database)
    requires
        old(db).wf(),
        create_bet_fits(old(db)@, user_id@, black@, white@, bet, color@),
    ensures
        final(db).wf(),
        final(db)@ == place_bet_on(refund_old_bet(old(db)@, user_id@, black@, white@), user_id@, black@, white@, bet, color@),
{
    let ghost d = db@;
    if let Some(old_bet) = get_bet(user_id.clone(), black.clone(), white.clone(), db) {
        add_coq_to_user(user_id.clone(), old_bet.bet, db);
        let ghost d1 = db@;
        let mut game = get_game(old_bet.black.clone(), old_bet.white.clone(), db).unwrap();
        if is_noir(&old_bet.color) {
            game.black_bet = game.black_bet - old_bet.bet;
            update_game_bet(old_bet.black.clone(), old_bet.white.clone(), old_bet.color.clone(), game.black_bet, db);
        } else if is_blanc(&old_bet.color) {
            game.white_bet = game.white_bet - old_bet.bet;
            update_game_bet(old_bet.black.clone(), old_bet.white.clone(), old_bet.color.clone(), game.white_bet, db);
        }
        proof {
            let d2 = db@;
            lemma_games_keys_kept(d1, d2);
            assert(has_game(d1, black@, white@));
            assert(has_game(d2, black@, white@));
        }
        remove_bet(old_bet, db);
        assert(has_game(db@, black@, white@));
        proof {
            lemma_bets_filtered(d, |b: BetView| !bet_key_is(b, user_id@, black@, white@));
        }
    }
    let ghost d3 = db@;
    assert(d3 == refund_old_bet(d, user_id@, black@, white@));
    proof {
        if has_bet(d, user_id@, black@, white@) {
            let dd = db@;
            assert forall|i: int| 0 <= i < dd.bets.len() implies !bet_key_is(dd.bets[i], user_id@, black@, white@) by {
                broadcast use vstd::seq_lib::group_filter_ensures;
            }
        }
    }
    assert(has_game(d3, black@, white@));
    add_coq_to_user(user_id.clone(), -bet, db);
    let ghost d4 = db@;
    assert(has_game(d4, black@, white@));
    let game = get_game(black.clone(), white.clone(), db).unwrap();
    if is_noir(&color) {
        update_game_bet(black.clone(), white.clone(), color.clone(), game.black_bet + bet, db);
    } else if is_blanc(&color) {
        update_game_bet(black.clone(), white.clone(), color.clone(), game.white_bet + bet, db);
    }
    proof { lemma_games_keys_kept(d4, db@); }
    add_bet(user_id, black, white, bet, color, db);
}

/// The bets placed on the game between `black` and `white`, in table order.
pub open spec fn game_bets(d: DbView, black: Seq<char>, white: Seq<char>) -> Seq<BetView> {
    d.bets.filter(|b: BetView| bet_of_game(b, black, white))
}

/// Gives back to their users, in order, the shells of `bets`.
pub open spec fn refund_bets(d: DbView, bets: Seq<BetView>) -> DbView
    decreases bets.len(),
{
    if bets.len() == 0 {
        d
    } else {
        add_coq(refund_bets(d, bets.drop_last()), bets.last().user_id, bets.last().bet as int)
    }
}

/// No user's shells leave `i32` while `bets` are given back in order.
pub open spec fn refund_fits(d: DbView, bets: Seq<BetView>) -> bool
    decreases bets.len(),
{
    bets.len() == 0 || {
        &&& refund_fits(d, bets.drop_last())
        &&& i32::MIN <= coq_of(refund_bets(d, bets.drop_last()), bets.last().user_id) + bets.last().bet <= i32::MAX
    }
}

pub proof fn lemma_refund_keeps(d: DbView, bets: Seq<BetView>)
    ensures
        refund_bets(d, bets).bets == d.bets,
        refund_bets(d, bets).games == d.games,
        db_wf(d) ==> db_wf(refund_bets(d, bets)),
    decreases bets.len(),
{
    if bets.len() > 0 {
        lemma_refund_keeps(d, bets.drop_last());
        let e = refund_bets(d, bets.drop_last());
        if db_wf(d) {
            lemma_set_coq(e, bets.last().user_id, (coq_of(e, bets.last().user_id) + bets.last().bet) as i32);
        }
    }
}

pub proof fn lemma_refund_fits_prefix(d: DbView, bets: Seq<BetView>, i: int)
    requires
        refund_fits(d, bets),
        0 <= i <= bets.len(),
    ensures
        refund_fits(d, bets.take(i)),
        i < bets.len() ==> i32::MIN <= coq_of(refund_bets(d, bets.take(i)), bets[i].user_id) + bets[i].bet <= i32::MAX,
    decreases bets.len(),
{
    if i == bets.len() {
        assert(bets.take(i) =~= bets);
    } else {
        assert(bets.drop_last().take(i) =~= bets.take(i));
        if i == bets.len() - 1 {
            assert(bets.drop_last() =~= bets.take(i));
        } else {
            lemma_refund_fits_prefix(d, bets.drop_last(), i);
            assert(bets.drop_last()[i] == bets[i]);
        }
    }
}

/// Cancels the bets on a game: each of them is removed and its shells go
/// back to its user. The game's totals are left as they are.
pub fn cancel_bet(black: String, white: String, db: &mut Database)
    requires
        old(db).wf(),
        refund_fits(old(db)@, game_bets(old(db)@, black@, white@)),
    ensures
        final(db).wf(),
        final(db)@ == without_game_bets(refund_bets(old(db)@, game_bets(old(db)@, black@, white@)), black@, white@),
{
    let ghost d = db@;
    let ghost pred = |b: BetView| bet_of_game(b, black@, white@);
    let n = db.bets.len();
    let mut found: Vec<Bets> = Vec::new();
    let mut i: usize = 0;
    while i < n
        invariant
            db@ == d,
            n == d.bets.len(),
            i <= n,
            pred == |b: BetView| bet_of_game(b, black@, white@),
            found@.map_values(|b: Bets| b@) == d.bets.take(i as int).filter(pred),
        decreases n - i,
    {
        proof {
            assert(d.bets[i as int] == db.bets@[i as int]@);
            reveal_with_fuel(Seq::filter, 1);
            assert(d.bets.take(i + 1).drop_last() =~= d.bets.take(i as int));
        }
        if db.bets[i].black == black && db.bets[i].white == white {
            let ghost before = found@;
            found.push(db.bets[i].clone());
            assert(found@.map_values(|b: Bets| b@) =~= before.map_values(|b: Bets| b@).push(d.bets[i as int]));
        }
        i = i + 1;
    }
    proof { assert(d.bets.take(n as int) =~= d.bets); }
    let ghost gb = found@.map_values(|b: Bets| b@);
    assert(gb == game_bets(d, black@, white@));
    let m = found.len();
    let mut k: usize = 0;
    while k < m
        invariant
            m == found.len(),
            gb == found@.map_values(|b: Bets| b@),
            k <= m,
            refund_fits(d, gb),
            db.wf(),
            db@ == refund_bets(d, gb.take(k as int)),
        decreases m - k,
    {
        proof {
            lemma_refund_fits_prefix(d, gb, k as int);
            assert(gb[k as int] == found@[k as int]@);
            assert(gb.take(k + 1).drop_last() =~= gb.take(k as int));
        }
        add_coq_to_user(found[k].user_id.clone(), found[k].bet, db);
        k = k + 1;
    }
    proof {
        assert(gb.take(m as int) =~= gb);
        lemma_refund_keeps(d, gb);
    }
    remove_bets_of_game(black, white, db);
}

/// The users holding a bet on `color` for the game between `black` and
/// `white`, in table order.
pub open spec fn users_who_bet(d: DbView, black: Seq<char>, white: Seq<char>, color: Seq<char>) -> Seq<UserView> {
    d.users.filter(|u: UserView| has_bet(d, u.id, black, white) && bet_at(d, u.id, black, white).color == color)
}

/// The users who bet on `color` for a game.
pub fn get_users_bet_color(black: String, white: String, color: String, db: &Database) -> (r: Option<Vec<Users>>)
    requires
        db.wf(),
    ensures
        match r {
            Some(v) => v@.map_values(|u: Users| u@) == users_who_bet(db@, black@, white@, color@),
            None => false,
        },
{
    let ghost d = db@;
    let ghost pred = |u: UserView| has_bet(d, u.id, black@, white@) && bet_at(d, u.id, black@, white@).color == color@;
    let n = db.users.len();
    let mut found: Vec<Users> = Vec::new();
    let mut i: usize = 0;
    while i < n
        invariant
            db@ == d,
            db.wf(),
            n == d.users.len(),
            i <= n,
            pred == |u: UserView| has_bet(d, u.id, black@, white@) && bet_at(d, u.id, black@, white@).color == color@,
            found@.map_values(|u: Users| u@) == d.users.take(i as int).filter(pred),
        decreases n - i,
    {
        proof {
            assert(d.users[i as int] == db.users@[i as int]@);
            reveal_with_fuel(Seq::filter, 1);
            assert(d.users.take(i + 1).drop_last() =~= d.users.take(i as int));
        }
        let matches = match db.bet_index(&db.users[i].id, &black, &white) {
            Some(j) => {
                proof { assert(d.bets[j as int] == db.bets@[j as int]@); }
                db.bets[j].color == color
            },
            None => false,
        };
        if matches {
            let ghost before = found@;
            found.push(db.users[i].clone());
            assert(found@.map_values(|u: Users| u@) =~= before.map_values(|u: Users| u@).push(d.users[i as int]));
        }
        i = i + 1;
    }
    proof { assert(d.users.take(n as int) =~= d.users); }
    Some(found)
}

/// The bets on `color` for the game between `black` and `white`.
pub open spec fn color_bets(d: DbView, black: Seq<char>, white: Seq<char>, color: Seq<char>) -> Seq<BetView> {
    d.bets.filter(color_pred(black, white, color))
}

/// Whether a bet is on `color` for the game between `black` and `white`.
pub open spec fn color_pred(black: Seq<char>, white: Seq<char>, color: Seq<char>) -> spec_fn(BetView) -> bool {
    |b: BetView| bet_of_game(b, black, white) && b.color == color
}

/// A bet on a colour of a game is a bet of the table on that game.
pub proof fn lemma_color_bets_from_table(d: DbView, black: Seq<char>, white: Seq<char>, color: Seq<char>, x: BetView)
    requires
        color_bets(d, black, white, color).contains(x),
    ensures
        d.bets.contains(x),
        bet_of_game(x, black, white),
        x.color == color,
{
    broadcast use vstd::seq_lib::group_filter_ensures;
    let p = color_pred(black, white, color);
    d.bets.lemma_filter_contains_rev(p, x);
    let j = choose|j: int| 0 <= j < d.bets.filter(p).len() && d.bets.filter(p)[j] == x;
    assert(p(d.bets.filter(p)[j]));
}

/// How many rows a query limited to `limit` returns out of `n`; a negative
/// limit sets no limit.
pub open spec fn limited_len(limit: i64, n: nat) -> nat {
    if limit < 0 || limit >= n { n } else { limit as nat }
}

/// `r` is the `limit` lowest bets of `m` (all of them when `limit` is
/// negative), from the highest to the lowest.
pub open spec fn lowest_bets_desc(m: Seq<BetView>, r: Seq<BetView>, limit: i64) -> bool {
    &&& r.len() == limited_len(limit, m.len())
    &&& r.no_duplicates()
    &&& forall|i: int| 0 <= i < r.len() ==> m.contains(#[trigger] r[i])
    &&& forall|i: int, j: int| 0 <= i <= j < r.len() ==> (#[trigger] r[i]).bet >= (#[trigger] r[j]).bet
    &&& forall|b: BetView, i: int| #[trigger] m.contains(b) && !r.contains(b) && 0 <= i < r.len()
        ==> b.bet >= (#[trigger] r[i]).bet
}

proof fn lemma_unique_bets_no_duplicates(s: Seq<BetView>)
    requires
        bets_unique(s),
    ensures
        s.no_duplicates(),
{
    assert forall|i: int, j: int| 0 <= i < s.len() && 0 <= j < s.len() && i != j implies s[i] != s[j] by {
        assert(!bet_key_is(s[i], s[j].user_id, s[j].black, s[j].white));
    }
}

/// The `limit` lowest bets on `color` for a game (all of them when `limit`
/// is negative), from the highest to the lowest.
pub fn get_bets_color(black: String, white: String, color: String, limit: i64, db: &Database) -> (r: Vec<Bets>)
    requires
        db.wf(),
    ensures
        lowest_bets_desc(color_bets(db@, black@, white@, color@), r@.map_values(|b: Bets| b@), limit),
{
    let ghost d = db@;
    let ghost pred = color_pred(black@, white@, color@);
    let n = db.bets.len();
    let mut pool: Vec<Bets> = Vec::new();
    let mut i: usize = 0;
    while i < n
        invariant
            db@ == d,
            n == d.bets.len(),
            i <= n,
            pred == color_pred(black@, white@, color@),
            pool@.map_values(|b: Bets| b@) == d.bets.take(i as int).filter(pred),
        decreases n - i,
    {
        proof {
            assert(d.bets[i as int] == db.bets@[i as int]@);
            reveal_with_fuel(Seq::filter, 1);
            assert(d.bets.take(i + 1).drop_last() =~= d.bets.take(i as int));
        }
        if db.bets[i].black == black && db.bets[i].white == white && db.bets[i].color == color {
            let ghost before = pool@;
            pool.push(db.bets[i].clone());
            assert(pool@.map_values(|b: Bets| b@) =~= before.map_values(|b: Bets| b@).push(d.bets[i as int]));
        }
        i = i + 1;
    }
    let ghost m = pool@.map_values(|b: Bets| b@);
    proof {
        assert(d.bets.take(n as int) =~= d.bets);
        assert(m == color_bets(d, black@, white@, color@));
        lemma_bets_filtered(d, pred);
        lemma_unique_bets_no_duplicates(m);
    }
    let total = pool.len();
    let k: usize = if limit < 0 || (limit as i128) >= (total as i128) { total } else { limit as usize };
    assert(k == limited_len(limit, m.len()));
    let mut asc: Vec<Bets> = Vec::new();
    let ghost mut pv = m;
    let ghost mut av = Seq::<BetView>::empty();
    assert(asc@.map_values(|b: Bets| b@) =~= av);
    while asc.len() < k
        invariant
            k <= m.len(),
            asc.len() <= k,
            pv == pool@.map_values(|b: Bets| b@),
            av == asc@.map_values(|b: Bets| b@),
            pv.len() + av.len() == m.len(),
            m.no_duplicates(),
            forall|a: int| 0 <= a < m.len() ==> pv.contains(#[trigger] m[a]) || av.contains(m[a]),
            forall|a: int| 0 <= a < pv.len() ==> m.contains(#[trigger] pv[a]),
            forall|a: int| 0 <= a < av.len() ==> m.contains(#[trigger] av[a]),
            pv.no_duplicates(),
            av.no_duplicates(),
            pv.disjoint(av),
            forall|a: int, b: int| 0 <= a <= b < av.len() ==> (#[trigger] av[a]).bet <= (#[trigger] av[b]).bet,
            forall|a: int, b: int| 0 <= a < pv.len() && 0 <= b < av.len() ==> (#[trigger] pv[a]).bet >= (#[trigger] av[b]).bet,
        decreases k - asc.len(),
    {
        let plen = pool.len();
        let mut j: usize = 0;
        let mut c: usize = 1;
        while c < plen
            invariant
                plen == pool.len(),
                pv == pool@.map_values(|b: Bets| b@),
                plen > 0,
                j < plen,
                1 <= c <= plen,
                forall|a: int| 0 <= a < c ==> (#[trigger] pv[a]).bet >= pv[j as int].bet,
            decreases plen - c,
        {
            proof {
                assert(pv[c as int] == pool@[c as int]@);
                assert(pv[j as int] == pool@[j as int]@);
            }
            if pool[c].bet < pool[j].bet {
                j = c;
            }
            c = c + 1;
        }
        let ghost old_pv = pv;
        let ghost old_av = av;
        let ghost x = pv[j as int];
        let chosen = pool.remove(j);
        assert(chosen@ == x);
        asc.push(chosen);
        proof {
            old_pv.remove_ensures(j as int);
            pv = old_pv.remove(j as int);
            av = old_av.push(x);
            assert(pv =~= pool@.map_values(|b: Bets| b@));
            assert(av =~= asc@.map_values(|b: Bets| b@));
            assert forall|a: int| 0 <= a < pv.len() implies (#[trigger] old_pv.contains(pv[a])) by {
                if a < j { assert(pv[a] == old_pv[a]); } else { assert(pv[a] == old_pv[a + 1]); }
            }
            assert forall|a: int| 0 <= a < m.len() implies pv.contains(#[trigger] m[a]) || av.contains(m[a]) by {
                if old_av.contains(m[a]) {
                    let t = choose|t: int| 0 <= t < old_av.len() && old_av[t] == m[a];
                    assert(av[t] == m[a]);
                } else {
                    let t = choose|t: int| 0 <= t < old_pv.len() && old_pv[t] == m[a];
                    if t < j {
                        assert(pv[t] == m[a]);
                    } else if t > j {
                        assert(pv[t - 1] == m[a]);
                    } else {
                        assert(av[old_av.len() as int] == m[a]);
                    }
                }
            }
            assert forall|a: int| 0 <= a < pv.len() implies m.contains(#[trigger] pv[a]) by {
                if a < j { assert(pv[a] == old_pv[a]); } else { assert(pv[a] == old_pv[a + 1]); }
            }
            assert forall|a: int| 0 <= a < av.len() implies m.contains(#[trigger] av[a]) by {
                if a < old_av.len() { assert(av[a] == old_av[a]); } else { assert(av[a] == old_pv[j as int]); }
            }
            assert forall|a: int, b: int| 0 <= a < pv.len() && 0 <= b < pv.len() && a != b implies pv[a] != pv[b] by {
                let a2 = if a < j { a } else { a + 1 };
                let b2 = if b < j { b } else { b + 1 };
                assert(pv[a] == old_pv[a2] && pv[b] == old_pv[b2]);
            }
            assert forall|a: int, b: int| 0 <= a < av.len() && 0 <= b < av.len() && a != b implies av[a] != av[b] by {
                if a < old_av.len() && b < old_av.len() {
                    assert(av[a] == old_av[a] && av[b] == old_av[b]);
                } else if a < old_av.len() {
                    assert(av[a] == old_av[a] && av[b] == old_pv[j as int]);
                } else {
                    assert(av[b] == old_av[b] && av[a] == old_pv[j as int]);
                }
            }
            assert forall|a: int, b: int| 0 <= a < pv.len() && 0 <= b < av.len() implies pv[a] != av[b] by {
                let a2 = if a < j { a } else { a + 1 };
                assert(pv[a] == old_pv[a2]);
                if b < old_av.len() {
                    assert(av[b] == old_av[b]);
                } else {
                    assert(av[b] == old_pv[j as int]);
                }
            }
            assert forall|a: int, b: int| 0 <= a <= b < av.len() implies (#[trigger] av[a]).bet <= (#[trigger] av[b]).bet by {
                if b == old_av.len() {
                    if a < b {
                        assert(old_pv[j as int].bet >= old_av[a].bet);
                    }
                } else {
                    assert(av[a] == old_av[a] && av[b] == old_av[b]);
                }
            }
            assert forall|a: int, b: int| 0 <= a < pv.len() && 0 <= b < av.len() implies (#[trigger] pv[a]).bet >= (#[trigger] av[b]).bet by {
                let a2 = if a < j { a } else { a + 1 };
                assert(pv[a] == old_pv[a2]);
                if b < old_av.len() {
                    assert(av[b] == old_av[b]);
                } else {
                    assert(av[b] == old_pv[j as int]);
                }
            }
        }
    }
    let len = asc.len();
    let mut r: Vec<Bets> = Vec::new();
    let mut t: usize = 0;
    while t < len
        invariant
            len == asc.len(),
            av == asc@.map_values(|b: Bets| b@),
            t <= len,
            r@.map_values(|b: Bets| b@) == av.reverse().take(t as int),
        decreases len - t,
    {
        proof { assert(av[len - 1 - t] == asc@[len - 1 - t]@); }
        let ghost before = r@;
        r.push(asc[len - 1 - t].clone());
        assert(av.reverse()[t as int] == av[len - 1 - t]);
        assert(r@.map_values(|b: Bets| b@) =~= before.map_values(|b: Bets| b@).push(av[len - 1 - t]));
        assert(r@.map_values(|b: Bets| b@) =~= av.reverse().take(t + 1));
        t = t + 1;
    }
    proof {
        let rv = r@.map_values(|b: Bets| b@);
        assert(rv =~= av.reverse());
        assert forall|a: int| 0 <= a < rv.len() implies rv[a] == av[av.len() - 1 - a] by {}
        assert forall|b: BetView| rv.contains(b) <==> av.contains(b) by {
            if rv.contains(b) {
                let a = choose|a: int| 0 <= a < rv.len() && rv[a] == b;
                assert(av[av.len() - 1 - a] == b);
            }
            if av.contains(b) {
                let a = choose|a: int| 0 <= a < av.len() && av[a] == b;
                assert(rv[av.len() - 1 - a] == b);
            }
        }
        assert forall|a: int, b: int| 0 <= a <= b < rv.len() implies (#[trigger] rv[a]).bet >= (#[trigger] rv[b]).bet by {
            assert(rv[a] == av[av.len() - 1 - a] && rv[b] == av[av.len() - 1 - b]);
        }
        assert forall|a: int, b: int| 0 <= a < rv.len() && 0 <= b < rv.len() && a != b implies rv[a] != rv[b] by {
            assert(rv[a] == av[av.len() - 1 - a] && rv[b] == av[av.len() - 1 - b]);
        }
        assert forall|a: int| 0 <= a < rv.len() implies m.contains(#[trigger] rv[a]) by {
            assert(rv[a] == av[av.len() - 1 - a]);
        }
        assert forall|b: BetView, a: int| #[trigger] m.contains(b) && !rv.contains(b) && 0 <= a < rv.len()
            implies b.bet >= (#[trigger] rv[a]).bet by {
            let e = choose|e: int| 0 <= e < m.len() && m[e] == b;
            assert(pv.contains(m[e]) || av.contains(m[e]));
            let q = choose|q: int| 0 <= q < pv.len() && pv[q] == b;
            assert(rv[a] == av[av.len() - 1 - a]);
            assert(pv[q].bet >= av[av.len() - 1 - a].bet);
        }
    }
    r
}

// ---------------------------------------------------------------------------
// Laws
// ---------------------------------------------------------------------------

/// All the shells held by the users of `s`.
pub open spec fn total_coq(s: Seq<UserView>) -> int
    decreases s.len(),
{
    if s.len() == 0 { 0 } else { total_coq(s.drop_last()) + s.last().nb_coq }
}

proof fn lemma_total_after_set_coq(s: Seq<UserView>, id: Seq<char>, v: i32)
    requires
        users_unique(s),
    ensures
        ({
            let t = s.map_values(|u: UserView|
                if u.id == id { UserView { id: u.id, name: u.name, nb_coq: v, nb_recharge: u.nb_recharge } } else { u });
            &&& (exists|i: int| 0 <= i < s.len() && s[i].id == id) ==> total_coq(t) == total_coq(s)
                - s[choose|i: int| 0 <= i < s.len() && s[i].id == id].nb_coq + v
            &&& !(exists|i: int| 0 <= i < s.len() && s[i].id == id) ==> total_coq(t) == total_coq(s)
        }),
    decreases s.len(),
{
    let f = |u: UserView|
        if u.id == id { UserView { id: u.id, name: u.name, nb_coq: v, nb_recharge: u.nb_recharge } } else { u };
    let t = s.map_values(f);
    if s.len() > 0 {
        let p = s.drop_last();
        assert(users_unique(p)) by {
            assert forall|a: int, b: int| 0 <= a < p.len() && 0 <= b < p.len() && a != b implies p[a].id != p[b].id by {
                assert(p[a] == s[a] && p[b] == s[b]);
            }
        }
        lemma_total_after_set_coq(p, id, v);
        assert(t.drop_last() =~= p.map_values(f));
        let n = s.len() - 1;
        if s.last().id == id {
            assert(!(exists|i: int| 0 <= i < p.len() && p[i].id == id)) by {
                if exists|i: int| 0 <= i < p.len() && p[i].id == id {
                    let i = choose|i: int| 0 <= i < p.len() && p[i].id == id;
                    assert(s[i].id == s[n].id);
                }
            }
            let c = choose|i: int| 0 <= i < s.len() && s[i].id == id;
            assert(c == n);
        } else {
            if exists|i: int| 0 <= i < s.len() && s[i].id == id {
                let c = choose|i: int| 0 <= i < s.len() && s[i].id == id;
                assert(p[c].id == id);
                let c2 = choose|i: int| 0 <= i < p.len() && p[i].id == id;
                assert(c2 == c);
            } else {
                assert(!(exists|i: int| 0 <= i < p.len() && p[i].id == id)) by {
                    if exists|i: int| 0 <= i < p.len() && p[i].id == id {
                        let i = choose|i: int| 0 <= i < p.len() && p[i].id == id;
                        assert(s[i].id == id);
                    }
                }
            }
        }
    }
}

/// Adding `n` shells to an existing user adds `n` to the shells of all users.
pub proof fn lemma_total_after_add_coq(d: DbView, id: Seq<char>, n: int)
    requires
        db_wf(d),
        has_user(d, id),
        i32::MIN <= coq_of(d, id) + n <= i32::MAX,
    ensures
        total_coq(add_coq(d, id, n).users) == total_coq(d.users) + n,
{
    lemma_total_after_set_coq(d.users, id, (coq_of(d, id) + n) as i32);
}

/// A trade between two distinct users takes exactly `nb_coq` shells from the
/// giver, gives them to the receiver, leaves every other user as it was and
/// keeps the shells of all users together unchanged; a refused trade
/// changes nothing.
pub proof fn law_trade_moves_shells(d: DbView, id_src: Seq<char>, id_dst: Seq<char>, nb_coq: i32)
    requires
        db_wf(d),
        trade_fits(d, id_src, id_dst, nb_coq),
        has_user(d, id_src),
        has_user(d, id_dst),
        id_src != id_dst,
    ensures
        ({
            let (r, e) = trade_outcome(d, id_src, id_dst, nb_coq);
            &&& r is Ok <==> coq_of(d, id_src) >= nb_coq
            &&& r is Ok ==> {
                &&& coq_of(e, id_src) == coq_of(d, id_src) - nb_coq
                &&& coq_of(e, id_dst) == coq_of(d, id_dst) + nb_coq
                &&& forall|k: Seq<char>| k != id_src && k != id_dst ==> #[trigger] coq_of(e, k) == coq_of(d, k)
                &&& total_coq(e.users) == total_coq(d.users)
            }
            &&& r is Err ==> e == d
        }),
{
    let (r, e) = trade_outcome(d, id_src, id_dst, nb_coq);
    if coq_of(d, id_src) - nb_coq >= 0 {
        let d1 = add_coq(d, id_src, -nb_coq);
        lemma_set_coq(d, id_src, (coq_of(d, id_src) - nb_coq) as i32);
        lemma_set_coq(d1, id_dst, (coq_of(d1, id_dst) + nb_coq) as i32);
        lemma_total_after_add_coq(d, id_src, -nb_coq);
        lemma_total_after_add_coq(d1, id_dst, nb_coq as int);
    }
}

/// A refill never leaves a user with fewer than zero refills, and a user
/// with no refill left is always refused.
pub proof fn law_recharge_never_negative(d: DbView, id: Seq<char>, modifier: i32)
    requires
        db_wf(d),
        recharge_fits(d, id, modifier),
        has_user(d, id),
        user_of(d, id).nb_recharge >= 0,
    ensures
        ({
            let (r, e) = recharge_outcome(d, id, modifier);
            &&& user_of(e, id).nb_recharge >= 0
            &&& user_of(d, id).nb_recharge == 0 ==> r is Err && e == d
            &&& r matches Ok(left) ==> left == user_of(e, id).nb_recharge
        }),
{
    let (r, e) = recharge_outcome(d, id, modifier);
    if !(modifier < 0 && modifier != -1) && user_of(d, id).nb_recharge > 0 {
        let left = (user_of(d, id).nb_recharge + modifier) as i32;
        let d1 = set_recharge(d, id, left);
        lemma_set_recharge(d, id, left);
        lemma_set_coq(d1, id, (coq_of(d1, id) + NB_COQ_RECHARGE) as i32);
    }
}

/// Setting the total of a colour of an existing game changes that total
/// only, and changes nothing when the colour is neither `"noir"` nor `"blanc"`.
pub proof fn lemma_game_after_set_bet(d: DbView, black: Seq<char>, white: Seq<char>, color: Seq<char>, total: i32)
    requires
        db_wf(d),
        has_game(d, black, white),
    ensures
        db_wf(set_game_bet(d, black, white, color, total)),
        has_game(set_game_bet(d, black, white, color, total), black, white),
        ({
            let g0 = game_at(d, black, white);
            let g1 = game_at(set_game_bet(d, black, white, color, total), black, white);
            &&& g1.black_bet == if color == noir() { total } else { g0.black_bet }
            &&& g1.white_bet == if color == blanc() { total } else { g0.white_bet }
        }),
{
    let e = set_game_bet(d, black, white, color, total);
    lemma_games_keys_kept(d, e);
    assert(has_game(e, black, white));
}

/// Placing a bet on `"noir"` or `"blanc"` moves shells between the user and
/// the game only: the user's shells plus the game's two totals stay the
/// same, the user pays the new stake and gets back any stake it had on the
/// game, and the game then holds exactly the new bet of that user.
pub proof fn law_create_bet_moves_stake(d: DbView, user_id: Seq<char>, black: Seq<char>, white: Seq<char>, bet: i32, color: Seq<char>)
    requires
        db_wf(d),
        create_bet_fits(d, user_id, black, white, bet, color),
        has_user(d, user_id),
        color == noir() || color == blanc(),
        has_bet(d, user_id, black, white) ==> bet_at(d, user_id, black, white).color == noir()
            || bet_at(d, user_id, black, white).color == blanc(),
    ensures
        ({
            let e = place_bet_on(refund_old_bet(d, user_id, black, white), user_id, black, white, bet, color);
            let g0 = game_at(d, black, white);
            let g1 = game_at(e, black, white);
            let back = if has_bet(d, user_id, black, white) { bet_at(d, user_id, black, white).bet as int } else { 0 };
            &&& db_wf(e)
            &&& has_game(e, black, white)
            &&& coq_of(e, user_id) + g1.black_bet + g1.white_bet == coq_of(d, user_id) + g0.black_bet + g0.white_bet
            &&& coq_of(e, user_id) == coq_of(d, user_id) + back - bet
            &&& has_bet(e, user_id, black, white)
            &&& bet_at(e, user_id, black, white) == bet_view(user_id, black, white, bet, color)
        }),
{
    let d3 = refund_old_bet(d, user_id, black, white);
    if has_bet(d, user_id, black, white) {
        let old = bet_at(d, user_id, black, white);
        let d1 = add_coq(d, user_id, old.bet as int);
        lemma_set_coq(d, user_id, (coq_of(d, user_id) + old.bet) as i32);
        let g = game_at(d1, black, white);
        let d2 = if old.color == noir() {
            set_game_bet(d1, black, white, old.color, (g.black_bet - old.bet) as i32)
        } else {
            set_game_bet(d1, black, white, old.color, (g.white_bet - old.bet) as i32)
        };
        if old.color == noir() {
            lemma_game_after_set_bet(d1, black, white, old.color, (g.black_bet - old.bet) as i32);
        } else {
            lemma_game_after_set_bet(d1, black, white, old.color, (g.white_bet - old.bet) as i32);
        }
        assert(d3 == without_bet(d2, user_id, black, white));
        lemma_bets_filtered(d2, |b: BetView| !bet_key_is(b, user_id, black, white));
        assert(game_at(d3, black, white) == game_at(d2, black, white));
        assert(coq_of(d3, user_id) == coq_of(d2, user_id));
    }
    assert(db_wf(d3));
    assert(has_game(d3, black, white));
    assert(!has_bet(d3, user_id, black, white)) by {
        if has_bet(d, user_id, black, white) {
            broadcast use vstd::seq_lib::group_filter_ensures;
        }
    }
    let e1 = add_coq(d3, user_id, -bet);
    lemma_set_coq(d3, user_id, (coq_of(d3, user_id) - bet) as i32);
    let g3 = game_at(e1, black, white);
    let e2 = if color == noir() {
        set_game_bet(e1, black, white, color, (g3.black_bet + bet) as i32)
    } else {
        set_game_bet(e1, black, white, color, (g3.white_bet + bet) as i32)
    };
    if color == noir() {
        lemma_game_after_set_bet(e1, black, white, color, (g3.black_bet + bet) as i32);
    } else {
        lemma_game_after_set_bet(e1, black, white, color, (g3.white_bet + bet) as i32);
    }
    let nb = bet_view(user_id, black, white, bet, color);
    let e = with_bets(e2, e2.bets.push(nb));
    assert(!has_bet(e2, user_id, black, white));
    assert(bets_unique(e.bets)) by {
        assert forall|i: int, j: int| 0 <= i < e.bets.len() && 0 <= j < e.bets.len() && i != j
            implies !bet_key_is(e.bets[i], e.bets[j].user_id, e.bets[j].black, e.bets[j].white) by {
            if i == e2.bets.len() as int {
                assert(e.bets[j] == e2.bets[j]);
            } else if j == e2.bets.len() as int {
                assert(e.bets[i] == e2.bets[i]);
            } else {
                assert(e.bets[i] == e2.bets[i] && e.bets[j] == e2.bets[j]);
            }
        }
    }
    lemma_bet_at(e, user_id, black, white, e2.bets.len() as int);
    assert(game_at(e, black, white) == game_at(e2, black, white));
    assert(e.users == e2.users);
    assert(e2.users == e1.users);
    assert(has_user(e2, user_id) == has_user(e1, user_id));
    assert(coq_of(e2, user_id) == coq_of(e1, user_id));
    assert(coq_of(e, user_id) == coq_of(e2, user_id));
}

/// The shells staked by user `id` in `bets`.
pub open spec fn stake_of(bets: Seq<BetView>, id: Seq<char>) -> int
    decreases bets.len(),
{
    if bets.len() == 0 {
        0
    } else {
        stake_of(bets.drop_last(), id) + if bets.last().user_id == id { bets.last().bet as int } else { 0 }
    }
}

proof fn lemma_refund_coq(d: DbView, s: Seq<BetView>, id: Seq<char>)
    requires
        db_wf(d),
        refund_fits(d, s),
    ensures
        has_user(refund_bets(d, s), id) == has_user(d, id),
        has_user(d, id) ==> coq_of(refund_bets(d, s), id) == coq_of(d, id) + stake_of(s, id),
    decreases s.len(),
{
    if s.len() > 0 {
        let p = s.drop_last();
        lemma_refund_coq(d, p, id);
        lemma_refund_keeps(d, p);
        let e = refund_bets(d, p);
        lemma_set_coq(e, s.last().user_id, (coq_of(e, s.last().user_id) + s.last().bet) as i32);
    }
}

proof fn lemma_stake_on_game(s: Seq<BetView>, id: Seq<char>, black: Seq<char>, white: Seq<char>)
    requires
        bets_unique(s),
    ensures
        ({
            let present = exists|i: int| 0 <= i < s.len() && bet_key_is(s[i], id, black, white);
            let st = stake_of(s.filter(|b: BetView| bet_of_game(b, black, white)), id);
            &&& present ==> st == s[choose|i: int| 0 <= i < s.len() && bet_key_is(s[i], id, black, white)].bet
            &&& !present ==> st == 0
        }),
    decreases s.len(),
{
    reveal_with_fuel(Seq::filter, 1);
    let pg = |b: BetView| bet_of_game(b, black, white);
    if s.len() > 0 {
        let p = s.drop_last();
        let n = s.len() - 1;
        assert(bets_unique(p)) by {
            assert forall|a: int, b: int| 0 <= a < p.len() && 0 <= b < p.len() && a != b
                implies !bet_key_is(p[a], p[b].user_id, p[b].black, p[b].white) by {
                assert(p[a] == s[a] && p[b] == s[b]);
            }
        }
        lemma_stake_on_game(p, id, black, white);
        let fp = p.filter(pg);
        if pg(s.last()) {
            assert(s.filter(pg) == fp.push(s.last()));
            assert(s.filter(pg).drop_last() =~= fp);
        } else {
            assert(s.filter(pg) == fp);
        }
        if bet_key_is(s.last(), id, black, white) {
            assert(!(exists|i: int| 0 <= i < p.len() && bet_key_is(p[i], id, black, white))) by {
                if exists|i: int| 0 <= i < p.len() && bet_key_is(p[i], id, black, white) {
                    let i = choose|i: int| 0 <= i < p.len() && bet_key_is(p[i], id, black, white);
                    assert(p[i] == s[i]);
                    assert(!bet_key_is(s[i], s[n].user_id, s[n].black, s[n].white));
                }
            }
            let c = choose|i: int| 0 <= i < s.len() && bet_key_is(s[i], id, black, white);
            assert(c == n);
        } else {
            if exists|i: int| 0 <= i < s.len() && bet_key_is(s[i], id, black, white) {
                let c = choose|i: int| 0 <= i < s.len() && bet_key_is(s[i], id, black, white);
                assert(c != n);
                assert(p[c] == s[c]);
                let c2 = choose|i: int| 0 <= i < p.len() && bet_key_is(p[i], id, black, white);
                assert(p[c2] == s[c2]);
                assert(c2 == c);
            } else {
                assert(!(exists|i: int| 0 <= i < p.len() && bet_key_is(p[i], id, black, white))) by {
                    if exists|i: int| 0 <= i < p.len() && bet_key_is(p[i], id, black, white) {
                        let i = choose|i: int| 0 <= i < p.len() && bet_key_is(p[i], id, black, white);
                        assert(p[i] == s[i]);
                    }
                }
            }
        }
    }
}

/// Cancelling the bets of a game gives every user exactly the stake it had on
/// that game back, leaves no bet on that game, and keeps the games as they
/// were.
pub proof fn law_cancel_refunds_stakes(d: DbView, black: Seq<char>, white: Seq<char>)
    requires
        db_wf(d),
        refund_fits(d, game_bets(d, black, white)),
    ensures
        ({
            let e = without_game_bets(refund_bets(d, game_bets(d, black, white)), black, white);
            &&& e.games == d.games
            &&& forall|i: int| 0 <= i < e.bets.len() ==> !bet_of_game(#[trigger] e.bets[i], black, white)
            &&& forall|id: Seq<char>| has_user(d, id) ==> #[trigger] coq_of(e, id) == coq_of(d, id)
                + if has_bet(d, id, black, white) { bet_at(d, id, black, white).bet as int } else { 0 }
        }),
{
    let gb = game_bets(d, black, white);
    let r = refund_bets(d, gb);
    lemma_refund_keeps(d, gb);
    lemma_bets_filtered(r, |b: BetView| !bet_of_game(b, black, white));
    let e = without_game_bets(r, black, white);
    assert forall|id: Seq<char>| has_user(d, id) implies #[trigger] coq_of(e, id) == coq_of(d, id)
        + if has_bet(d, id, black, white) { bet_at(d, id, black, white).bet as int } else { 0 } by {
        lemma_refund_coq(d, gb, id);
        lemma_stake_on_game(d.bets, id, black, white);
        assert(coq_of(e, id) == coq_of(r, id));
    }
}

// ---------------------------------------------------------------------------
// Sums of stakes
// ---------------------------------------------------------------------------

/// The shells staked in the bets of `s` that satisfy `p`.
pub open spec fn sum_where(s: Seq<BetView>, p: spec_fn(BetView) -> bool) -> int
    decreases s.len(),
{
    if s.len() == 0 {
        0
    } else {
        sum_where(s.drop_last(), p) + if p(s.last()) { s.last().bet as int } else { 0 }
    }
}

/// All the shells staked in `s`.
pub open spec fn staked(s: Seq<BetView>) -> int {
    sum_where(s, |b: BetView| true)
}

/// The shells staked in `s` on `color` for the game between `black` and
/// `white`.
pub open spec fn color_total(s: Seq<BetView>, black: Seq<char>, white: Seq<char>, color: Seq<char>) -> int {
    sum_where(s, |b: BetView| bet_of_game(b, black, white) && b.color == color)
}

/// The game between `black` and `white` exists and records, for each colour,
/// the sum of the bets placed on it.
pub open spec fn totals_match(d: DbView, black: Seq<char>, white: Seq<char>) -> bool {
    &&& has_game(d, black, white)
    &&& game_at(d, black, white).black_bet == color_total(d.bets, black, white, noir())
    &&& game_at(d, black, white).white_bet == color_total(d.bets, black, white, blanc())
}

proof fn lemma_sum_push(s: Seq<BetView>, p: spec_fn(BetView) -> bool, x: BetView)
    ensures
        sum_where(s.push(x), p) == sum_where(s, p) + if p(x) { x.bet as int } else { 0 },
{
    assert(s.push(x).drop_last() =~= s);
}

proof fn lemma_sum_without_absent(s: Seq<BetView>, p: spec_fn(BetView) -> bool, u: Seq<char>, b: Seq<char>, w: Seq<char>)
    requires
        forall|j: int| 0 <= j < s.len() ==> !bet_key_is(#[trigger] s[j], u, b, w),
    ensures
        sum_where(s.filter(|x: BetView| !bet_key_is(x, u, b, w)), p) == sum_where(s, p),
    decreases s.len(),
{
    reveal_with_fuel(Seq::filter, 1);
    let nk = |x: BetView| !bet_key_is(x, u, b, w);
    if s.len() > 0 {
        let q = s.drop_last();
        assert forall|j: int| 0 <= j < q.len() implies !bet_key_is(#[trigger] q[j], u, b, w) by {
            assert(q[j] == s[j]);
        }
        lemma_sum_without_absent(q, p, u, b, w);
        assert(!bet_key_is(s[s.len() - 1], u, b, w));
        assert(s.filter(nk) == q.filter(nk).push(s.last()));
        lemma_sum_push(q.filter(nk), p, s.last());
    }
}

proof fn lemma_sum_without_key(s: Seq<BetView>, p: spec_fn(BetView) -> bool, u: Seq<char>, b: Seq<char>, w: Seq<char>, i: int)
    requires
        bets_unique(s),
        0 <= i < s.len(),
        bet_key_is(s[i], u, b, w),
    ensures
        sum_where(s.filter(|x: BetView| !bet_key_is(x, u, b, w)), p)
            == sum_where(s, p) - if p(s[i]) { s[i].bet as int } else { 0 },
    decreases s.len(),
{
    reveal_with_fuel(Seq::filter, 1);
    let nk = |x: BetView| !bet_key_is(x, u, b, w);
    let q = s.drop_last();
    let n = s.len() - 1;
    if i == n {
        assert forall|j: int| 0 <= j < q.len() implies !bet_key_is(#[trigger] q[j], u, b, w) by {
            assert(q[j] == s[j]);
            assert(!bet_key_is(s[j], s[n].user_id, s[n].black, s[n].white));
        }
        lemma_sum_without_absent(q, p, u, b, w);
        assert(s.filter(nk) == q.filter(nk));
    } else {
        assert(bets_unique(q)) by {
            assert forall|a: int, c: int| 0 <= a < q.len() && 0 <= c < q.len() && a != c
                implies !bet_key_is(q[a], q[c].user_id, q[c].black, q[c].white) by {
                assert(q[a] == s[a] && q[c] == s[c]);
            }
        }
        assert(q[i] == s[i]);
        lemma_sum_without_key(q, p, u, b, w, i);
        assert(!bet_key_is(s[n], u, b, w)) by {
            assert(!bet_key_is(s[n], s[i].user_id, s[i].black, s[i].white));
        }
        assert(s.filter(nk) == q.filter(nk).push(s.last()));
        lemma_sum_push(q.filter(nk), p, s.last());
    }
}

/// What taking back the old bet of `user_id` on a game does: the bet leaves
/// the table, its shells return to the user, and they leave the total of
/// its colour when that colour is `"noir"` or `"blanc"`.
pub proof fn lemma_refund_shape(d: DbView, u: Seq<char>, b: Seq<char>, w: Seq<char>, bet: i32, color: Seq<char>)
    requires
        db_wf(d),
        create_bet_fits(d, u, b, w, bet, color),
    ensures
        ({
            let d3 = refund_old_bet(d, u, b, w);
            let old = bet_at(d, u, b, w);
            let back = if has_bet(d, u, b, w) { old.bet as int } else { 0 };
            &&& db_wf(d3)
            &&& has_game(d3, b, w)
            &&& !has_bet(d3, u, b, w)
            &&& has_bet(d, u, b, w) ==> exists|i: int| 0 <= i < d.bets.len() && d.bets[i] == old
                && bet_key_is(d.bets[i], u, b, w)
            &&& d3.bets == if has_bet(d, u, b, w) { d.bets.filter(|x: BetView| !bet_key_is(x, u, b, w)) } else { d.bets }
            &&& has_user(d3, u) == has_user(d, u)
            &&& has_user(d, u) ==> coq_of(d3, u) == coq_of(d, u) + back
            &&& has_user(d, u) ==> total_coq(d3.users) == total_coq(d.users) + back
            &&& game_at(d3, b, w).black_bet == game_at(d, b, w).black_bet
                - if has_bet(d, u, b, w) && old.color == noir() { back } else { 0 }
            &&& game_at(d3, b, w).white_bet == game_at(d, b, w).white_bet
                - if has_bet(d, u, b, w) && old.color == blanc() { back } else { 0 }
        }),
{
    let nk = |x: BetView| !bet_key_is(x, u, b, w);
    if has_bet(d, u, b, w) {
        let old = bet_at(d, u, b, w);
        let i = choose|i: int| 0 <= i < d.bets.len() && bet_key_is(d.bets[i], u, b, w);
        lemma_bet_at(d, u, b, w, i);
        let d1 = add_coq(d, u, old.bet as int);
        lemma_set_coq(d, u, (coq_of(d, u) + old.bet) as i32);
        if has_user(d, u) {
            lemma_total_after_add_coq(d, u, old.bet as int);
        }
        assert(d1.games == d.games);
        assert(game_at(d1, b, w) == game_at(d, b, w));
        let g = game_at(d1, b, w);
        let d2 = if old.color == noir() {
            set_game_bet(d1, b, w, old.color, (g.black_bet - old.bet) as i32)
        } else if old.color == blanc() {
            set_game_bet(d1, b, w, old.color, (g.white_bet - old.bet) as i32)
        } else {
            d1
        };
        if old.color == noir() {
            lemma_game_after_set_bet(d1, b, w, old.color, (g.black_bet - old.bet) as i32);
        } else if old.color == blanc() {
            lemma_game_after_set_bet(d1, b, w, old.color, (g.white_bet - old.bet) as i32);
        }
        assert(d2.users == d1.users && d2.bets == d.bets);
        assert(has_user(d2, u) == has_user(d1, u));
        assert(coq_of(d2, u) == coq_of(d1, u));
        let d3 = without_bet(d2, u, b, w);
        assert(d3 == refund_old_bet(d, u, b, w));
        lemma_bets_filtered(d2, nk);
        assert(game_at(d3, b, w) == game_at(d2, b, w));
        assert(has_user(d3, u) == has_user(d2, u));
        assert(coq_of(d3, u) == coq_of(d2, u));
        assert(!has_bet(d3, u, b, w)) by {
            broadcast use vstd::seq_lib::group_filter_ensures;
        }
    }
}

/// What staking `bet` shells on `color` does once no bet of the user is left
/// on the game: the shells leave the user, join the total of that colour
/// when it is `"noir"` or `"blanc"`, and the bet is recorded.
pub proof fn lemma_place_shape(d: DbView, u: Seq<char>, b: Seq<char>, w: Seq<char>, bet: i32, color: Seq<char>)
    requires
        db_wf(d),
        has_game(d, b, w),
        !has_bet(d, u, b, w),
        bet != i32::MIN,
        i32::MIN <= coq_of(d, u) - bet <= i32::MAX,
        color == noir() ==> i32::MIN <= game_at(d, b, w).black_bet + bet <= i32::MAX,
        color == blanc() ==> i32::MIN <= game_at(d, b, w).white_bet + bet <= i32::MAX,
    ensures
        ({
            let e = place_bet_on(d, u, b, w, bet, color);
            &&& db_wf(e)
            &&& has_game(e, b, w)
            &&& e.bets == d.bets.push(bet_view(u, b, w, bet, color))
            &&& has_user(d, u) ==> coq_of(e, u) == coq_of(d, u) - bet
            &&& has_user(d, u) ==> total_coq(e.users) == total_coq(d.users) - bet
            &&& game_at(e, b, w).black_bet == game_at(d, b, w).black_bet + if color == noir() { bet as int } else { 0 }
            &&& game_at(e, b, w).white_bet == game_at(d, b, w).white_bet + if color == blanc() { bet as int } else { 0 }
        }),
{
    let e1 = add_coq(d, u, -bet);
    lemma_set_coq(d, u, (coq_of(d, u) - bet) as i32);
    if has_user(d, u) {
        lemma_total_after_add_coq(d, u, -bet);
    }
    assert(e1.games == d.games);
    assert(game_at(e1, b, w) == game_at(d, b, w));
    let g3 = game_at(e1, b, w);
    let e2 = if color == noir() {
        set_game_bet(e1, b, w, color, (g3.black_bet + bet) as i32)
    } else if color == blanc() {
        set_game_bet(e1, b, w, color, (g3.white_bet + bet) as i32)
    } else {
        e1
    };
    if color == noir() {
        lemma_game_after_set_bet(e1, b, w, color, (g3.black_bet + bet) as i32);
    } else if color == blanc() {
        lemma_game_after_set_bet(e1, b, w, color, (g3.white_bet + bet) as i32);
    }
    let nb = bet_view(u, b, w, bet, color);
    let e = with_bets(e2, e2.bets.push(nb));
    assert(e == place_bet_on(d, u, b, w, bet, color));
    assert(e2.bets == d.bets);
    assert(!has_bet(e2, u, b, w));
    assert(bets_unique(e.bets)) by {
        assert forall|i: int, j: int| 0 <= i < e.bets.len() && 0 <= j < e.bets.len() && i != j
            implies !bet_key_is(e.bets[i], e.bets[j].user_id, e.bets[j].black, e.bets[j].white) by {
            if i == e2.bets.len() as int {
                assert(e.bets[j] == e2.bets[j]);
            } else if j == e2.bets.len() as int {
                assert(e.bets[i] == e2.bets[i]);
            } else {
                assert(e.bets[i] == e2.bets[i] && e.bets[j] == e2.bets[j]);
            }
        }
    }
    assert(game_at(e, b, w) == game_at(e2, b, w));
    assert(e.users == e2.users && e2.users == e1.users);
    assert(has_user(e, u) == has_user(e1, u));
    assert(coq_of(e, u) == coq_of(e1, u));
}

/// Placing a bet keeps, for each colour of the game, its recorded total equal
/// to the sum of the bets on that colour, and the game keeps at most one bet
/// per user.
pub proof fn law_create_bet_keeps_totals(d: DbView, user_id: Seq<char>, black: Seq<char>, white: Seq<char>, bet: i32, color: Seq<char>)
    requires
        db_wf(d),
        create_bet_fits(d, user_id, black, white, bet, color),
        color == noir() || color == blanc(),
        totals_match(d, black, white),
    ensures
        ({
            let e = place_bet_on(refund_old_bet(d, user_id, black, white), user_id, black, white, bet, color);
            &&& db_wf(e)
            &&& totals_match(e, black, white)
        }),
{
    let d3 = refund_old_bet(d, user_id, black, white);
    lemma_refund_shape(d, user_id, black, white, bet, color);
    let pn = |x: BetView| bet_of_game(x, black, white) && x.color == noir();
    let pb = |x: BetView| bet_of_game(x, black, white) && x.color == blanc();
    if has_bet(d, user_id, black, white) {
        let old = bet_at(d, user_id, black, white);
        let i = choose|i: int| 0 <= i < d.bets.len() && d.bets[i] == old && bet_key_is(d.bets[i], user_id, black, white);
        lemma_sum_without_key(d.bets, pn, user_id, black, white, i);
        lemma_sum_without_key(d.bets, pb, user_id, black, white, i);
    }
    assert(color_total(d3.bets, black, white, noir()) == game_at(d3, black, white).black_bet);
    assert(color_total(d3.bets, black, white, blanc()) == game_at(d3, black, white).white_bet);
    lemma_place_shape(d3, user_id, black, white, bet, color);
    let nb = bet_view(user_id, black, white, bet, color);
    lemma_sum_push(d3.bets, pn, nb);
    lemma_sum_push(d3.bets, pb, nb);
}

/// Placing a bet only moves shells between the user and the bets: the
/// shells held by all users plus all the shells staked stay the same, and so
/// do the user's shells plus its stakes.
pub proof fn law_create_bet_keeps_shells(d: DbView, user_id: Seq<char>, black: Seq<char>, white: Seq<char>, bet: i32, color: Seq<char>)
    requires
        db_wf(d),
        create_bet_fits(d, user_id, black, white, bet, color),
        has_user(d, user_id),
    ensures
        ({
            let e = place_bet_on(refund_old_bet(d, user_id, black, white), user_id, black, white, bet, color);
            &&& db_wf(e)
            &&& total_coq(e.users) + staked(e.bets) == total_coq(d.users) + staked(d.bets)
            &&& coq_of(e, user_id) + stake_of(e.bets, user_id) == coq_of(d, user_id) + stake_of(d.bets, user_id)
        }),
{
    let d3 = refund_old_bet(d, user_id, black, white);
    lemma_refund_shape(d, user_id, black, white, bet, color);
    let pa = |x: BetView| true;
    let pu = |x: BetView| x.user_id == user_id;
    lemma_stake_is_sum(d.bets, user_id);
    lemma_stake_is_sum(d3.bets, user_id);
    if has_bet(d, user_id, black, white) {
        let old = bet_at(d, user_id, black, white);
        let i = choose|i: int| 0 <= i < d.bets.len() && d.bets[i] == old && bet_key_is(d.bets[i], user_id, black, white);
        lemma_sum_without_key(d.bets, pa, user_id, black, white, i);
        lemma_sum_without_key(d.bets, pu, user_id, black, white, i);
    }
    lemma_place_shape(d3, user_id, black, white, bet, color);
    let e = place_bet_on(d3, user_id, black, white, bet, color);
    let nb = bet_view(user_id, black, white, bet, color);
    lemma_sum_push(d3.bets, pa, nb);
    lemma_sum_push(d3.bets, pu, nb);
    lemma_stake_is_sum(e.bets, user_id);
}

proof fn lemma_stake_is_sum(s: Seq<BetView>, id: Seq<char>)
    ensures
        stake_of(s, id) == sum_where(s, |x: BetView| x.user_id == id),
    decreases s.len(),
{
    if s.len() > 0 {
        lemma_stake_is_sum(s.drop_last(), id);
    }
}

} // verus!
