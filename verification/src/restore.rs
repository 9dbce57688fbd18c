//! Rebuilding the bot's memory from the database when it starts: every game
//! of the database gets an id, and a game whose betting window has a known
//! start is open or closed depending on the current time.

use vstd::prelude::*;
use crate::models::{Game, GameView};
use crate::state::{BetState, BetStateData, GameData, GameSlot, GameSlotView, slot_view, state_of_code, state_code};
use crate::store::{Database, get_games, set_game_state, update_game_state};

verus! {

broadcast use vstd::std_specs::hash::group_hash_axioms;

/// How the start of a betting window is written in the database.
pub const START_FORMAT: &'static str = "%Y-%m-%d %H:%M:%S%.9f UTC";

/// Seconds a restored betting window stays announced after it closed.
pub const CLOSE_DELAY: i64 = 60;

/// The moment `text` names when read with the `chrono` format `fmt`, as
/// seconds since 1970-01-01 00:00:00 UTC and nanoseconds into that second;
/// `None` when `text` does not match `fmt` or names no valid moment.
pub uninterp spec fn spec_parse_datetime(text: Seq<char>, fmt: Seq<char>) -> Option<(i64, u32)>;

/// A bound, 2^43, on the seconds of any moment `chrono` represents: its
/// dates run from the year -262143 to the year 262142.
pub const MOMENT_LIMIT: i64 = 8_796_093_022_208;

/// Reads `text` with `chrono::NaiveDateTime::parse_from_str` and the format
/// `fmt`. The contract names the result: it depends on `text` and `fmt`
/// alone, and nothing is claimed of how `chrono` reads them. Of a moment read,
/// it states the range of `chrono`'s dates (seconds within `MOMENT_LIMIT` of
/// 1970) and of its nanoseconds (below 2,000,000,000, a leap second reaching
/// past 1,000,000,000).
#[verifier::external_body]
fn parse_datetime(text: &str, fmt: &str) -> (r: Option<(i64, u32)>)
    ensures
        r == spec_parse_datetime(text@, fmt@),
        r matches Some(t) ==> -MOMENT_LIMIT < t.0 < MOMENT_LIMIT && t.1 < 2_000_000_000,
{
    match chrono::NaiveDateTime::parse_from_str(text, fmt) {
        Ok(t) => Some((t.and_utc().timestamp(), t.and_utc().timestamp_subsec_nanos())),
        Err(_) => None,
    }
}

/// Whether moment `a` comes after moment `b`.
pub open spec fn later(a: (i64, u32), b: (i64, u32)) -> bool {
    a.0 > b.0 || (a.0 == b.0 && a.1 > b.1)
}

/// The moment `seconds` after `t`, as `chrono` adds whole seconds: a moment
/// inside a leap second (nanoseconds from 1,000,000,000 on) first leaves it,
/// counting as the second before it when moving forward and as the second
/// after it when moving back; adding no second keeps it as it is.
pub open spec fn shifted(t: (i64, u32), seconds: int) -> (i64, u32) {
    if t.1 >= 1_000_000_000 {
        if seconds > 0 {
            ((t.0 + seconds) as i64, (t.1 - 1_000_000_000) as u32)
        } else if seconds < 0 {
            ((t.0 + 1 + seconds) as i64, (t.1 - 1_000_000_000) as u32)
        } else {
            t
        }
    } else {
        ((t.0 + seconds) as i64, t.1)
    }
}

/// A moment `chrono` can represent: seconds within `MOMENT_LIMIT` of 1970
/// and nanoseconds below 2,000,000,000.
pub open spec fn representable(t: (i64, u32)) -> bool {
    -MOMENT_LIMIT < t.0 < MOMENT_LIMIT && t.1 < 2_000_000_000
}

/// The moment `seconds` after `t`.
fn shift(t: (i64, u32), seconds: i64) -> (r: (i64, u32))
    requires
        representable(t),
        -MOMENT_LIMIT <= seconds <= MOMENT_LIMIT,
    ensures
        r == shifted(t, seconds as int),
{
    if t.1 >= 1_000_000_000 {
        if seconds > 0 {
            (t.0 + seconds, t.1 - 1_000_000_000)
        } else if seconds < 0 {
            (t.0 + 1 + seconds, t.1 - 1_000_000_000)
        } else {
            t
        }
    } else {
        (t.0 + seconds, t.1)
    }
}

/// The parsed start of each game's betting window (`None` when it has none).
pub open spec fn parsed_start(g: GameView) -> Option<(i64, u32)> {
    if g.start.len() == 0 { None } else { spec_parse_datetime(g.start, START_FORMAT@) }
}

/// The betting state a game gets back at moment `now`: from the database
/// when its window has no start, otherwise open until `timeout` seconds after
/// the start and closed after.
pub open spec fn restored_state(g: GameView, start: Option<(i64, u32)>, now: (i64, u32)) -> BetState {
    if g.start.len() == 0 {
        state_of_code(g.state)
    } else if later(now, shifted(start.unwrap(), g.timeout as int)) {
        BetState::WaitingResult
    } else {
        BetState::Betting
    }
}

/// A betting window still open when the bot starts: when to close it.
pub struct RestoreTimer {
    pub index: usize,
    pub black: String,
    pub white: String,
    pub fire_at: (i64, u32),
}

pub struct TimerView {
    pub index: usize,
    pub black: Seq<char>,
    pub white: Seq<char>,
    pub fire_at: (i64, u32),
}

impl View for RestoreTimer {
    type V = TimerView;

    open spec fn view(&self) -> TimerView {
        TimerView { index: self.index, black: self.black@, white: self.white@, fire_at: self.fire_at }
    }
}

/// The windows among the first `n` games that are still open at `now`, each
/// closing `CLOSE_DELAY` seconds after its timeout.
pub open spec fn timers_upto(games: Seq<GameView>, starts: Seq<Option<(i64, u32)>>, now: (i64, u32), n: nat) -> Seq<TimerView>
    decreases n,
{
    if n == 0 {
        Seq::empty()
    } else {
        let i = (n - 1) as int;
        let p = timers_upto(games, starts, now, (n - 1) as nat);
        if games[i].start.len() != 0 && restored_state(games[i], starts[i], now) == BetState::Betting {
            p.push(TimerView {
                index: i as usize,
                black: games[i].black,
                white: games[i].white,
                fire_at: shifted(starts[i].unwrap(), games[i].timeout + CLOSE_DELAY),
            })
        } else {
            p
        }
    }
}

/// What the bot's memory gets back from the database.
pub struct Restored {
    /// One announced game per game of the database, in order.
    pub slots: Vec<GameSlot>,
    /// The betting state of each of them.
    pub states: Vec<BetState>,
    /// The windows still open, to close later.
    pub timers: Vec<RestoreTimer>,
}

/// `r` is what the games `games`, whose windows start at `starts`, give back
/// at moment `now`.
pub open spec fn restored_from(games: Seq<GameView>, starts: Seq<Option<(i64, u32)>>, now: (i64, u32), r: Restored) -> bool {
    &&& r.slots@.len() == games.len()
    &&& r.states@.len() == games.len()
    &&& forall|i: int| 0 <= i < games.len() ==> (#[trigger] r.slots@[i])@
        == (GameSlotView { black: games[i].black, white: games[i].white, pin: None })
    &&& forall|i: int| 0 <= i < games.len() ==> #[trigger] r.states@[i] == restored_state(games[i], starts[i], now)
    &&& r.timers@.map_values(|t: RestoreTimer| t@) == timers_upto(games, starts, now, games.len())
}

/// Each window with a start has a parsed start, a moment `chrono` can
/// represent.
pub open spec fn starts_fit(games: Seq<GameView>, starts: Seq<Option<(i64, u32)>>) -> bool {
    &&& starts.len() == games.len()
    &&& forall|i: int| 0 <= i < games.len() && (#[trigger] games[i]).start.len() != 0 ==> {
        &&& starts[i] is Some
        &&& representable(starts[i].unwrap())
    }
}

/// Rebuilds the bot's memory from the games of the database, the parsed
/// starts of their betting windows and the current moment.
pub fn restore_from(games: &Vec<Game>, starts: &Vec<Option<(i64, u32)>>, now: (i64, u32)) -> (r: Restored)
    requires
        starts_fit(games@.map_values(|g: Game| g@), starts@),
    ensures
        restored_from(games@.map_values(|g: Game| g@), starts@, now, r),
{
    let ghost gv = games@.map_values(|g: Game| g@);
    let n = games.len();
    let mut slots: Vec<GameSlot> = Vec::new();
    let mut states: Vec<BetState> = Vec::new();
    let mut timers: Vec<RestoreTimer> = Vec::new();
    let mut i: usize = 0;
    while i < n
        invariant
            n == games.len(),
            gv == games@.map_values(|g: Game| g@),
            starts_fit(gv, starts@),
            i <= n,
            slots@.len() == i,
            states@.len() == i,
            forall|k: int| 0 <= k < i ==> (#[trigger] slots@[k])@
                == (GameSlotView { black: gv[k].black, white: gv[k].white, pin: None }),
            forall|k: int| 0 <= k < i ==> #[trigger] states@[k] == restored_state(gv[k], starts@[k], now),
            timers@.map_values(|t: RestoreTimer| t@) == timers_upto(gv, starts@, now, i as nat),
        decreases n - i,
    {
        let game = &games[i];
        proof { assert(gv[i as int] == game@); }
        slots.push(GameSlot { black: game.black.clone(), white: game.white.clone(), pin: None });
        let ghost before = timers@;
        if !game.start.as_str().is_empty() {
            let start = starts[i].unwrap();
            let deadline = shift(start, game.timeout as i64);
            if now.0 > deadline.0 || (now.0 == deadline.0 && now.1 > deadline.1) {
                states.push(BetState::WaitingResult);
            } else {
                states.push(BetState::Betting);
                timers.push(RestoreTimer {
                    index: i,
                    black: game.black.clone(),
                    white: game.white.clone(),
                    fire_at: shift(start, game.timeout as i64 + CLOSE_DELAY),
                });
                assert(timers@.map_values(|t: RestoreTimer| t@) =~= before.map_values(|t: RestoreTimer| t@).push(timers@[before.len() as int]@)) by {
                    assert(timers@.len() == before.len() + 1);
                }
            }
        } else {
            states.push(BetState::from(game.state));
        }
        i = i + 1;
    }
    Restored { slots, states, timers }
}

/// The parsed starts of the betting windows of `games`.
pub open spec fn parsed_starts(games: Seq<GameView>) -> Seq<Option<(i64, u32)>> {
    Seq::new(games.len(), |i: int| parsed_start(games[i]))
}

/// Every start of a betting window among `games` can be read.
pub open spec fn starts_readable(games: Seq<GameView>) -> bool {
    forall|i: int| 0 <= i < games.len() && (#[trigger] games[i]).start.len() != 0 ==> parsed_start(games[i]) is Some
}

/// Rebuilds the bot's memory from the database at moment `now`; `None` when
/// the start of a betting window cannot be read.
pub fn restore_context(db: &Database, now: (i64, u32)) -> (r: Option<Restored>)
    ensures
        r is Some <==> starts_readable(db@.games),
        r matches Some(x) ==> restored_from(db@.games, parsed_starts(db@.games), now, x),
{
    let games = get_games(db);
    let ghost gv = db@.games;
    let n = games.len();
    let mut starts: Vec<Option<(i64, u32)>> = Vec::new();
    let mut i: usize = 0;
    while i < n
        invariant
            n == games.len(),
            gv == games@.map_values(|g: Game| g@),
            gv == db@.games,
            i <= n,
            starts@ == parsed_starts(gv).take(i as int),
            starts_fit(gv.take(i as int), starts@),
            starts_readable(gv.take(i as int)),
        decreases n - i,
    {
        let game = &games[i];
        proof { assert(gv[i as int] == game@); }
        let ghost before = starts@;
        if !game.start.as_str().is_empty() {
            let parsed = parse_datetime(game.start.as_str(), START_FORMAT);
            match parsed {
                None => {
                    proof {
                        assert(gv[i as int].start.len() != 0);
                        assert(parsed_starts(gv)[i as int] is None);
                        assert(!starts_readable(gv));
                    }
                    return None;
                },
                Some(t) => {
                    starts.push(Some(t));
                },
            }
        } else {
            starts.push(None);
        }
        proof {
            assert(starts@ =~= parsed_starts(gv).take(i + 1));
            let gt = gv.take(i + 1);
            assert forall|k: int| 0 <= k < gt.len() && (#[trigger] gt[k]).start.len() != 0 implies {
                &&& starts@[k] is Some
                &&& representable(starts@[k].unwrap())
            } by {
                if k < i {
                    assert(gt[k] == gv.take(i as int)[k]);
                }
            }
            assert forall|k: int| 0 <= k < gt.len() && (#[trigger] gt[k]).start.len() != 0 implies
                parsed_start(gt[k]) is Some by {
                if k < i {
                    assert(gt[k] == gv.take(i as int)[k]);
                }
            }
        }
        i = i + 1;
    }
    proof {
        assert(gv.take(n as int) =~= gv);
        assert(parsed_starts(gv).take(n as int) =~= parsed_starts(gv));
    }
    Some(restore_from(&games, &starts, now))
}

/// Fills the bot's empty memory with what the database gave back.
pub fn apply_restore(games: &mut GameData, states: &mut BetStateData, restored: Restored)
    requires
        old(games)@.len() == 0,
        restored.states@.len() == restored.slots@.len(),
    ensures
        final(games)@ == restored.slots@.map_values(|s: GameSlot| Some(s@)),
        final(states)@ == old(states)@.union_prefer_right(
            Map::new(|i: usize| i < restored.states@.len(), |i: usize| restored.states@[i as int])),
{
    let ghost slots_v = restored.slots@;
    let ghost st = restored.states@;
    let ghost s0 = states@;
    let n = restored.slots.len();
    let mut slots = restored.slots;
    let mut i: usize = 0;
    let mut taken: Vec<Option<GameSlot>> = Vec::new();
    while i < n
        invariant
            n == slots_v.len(),
            slots@ == slots_v,
            i <= n,
            taken@.map_values(|s: Option<GameSlot>| slot_view(s)) == slots_v.take(i as int).map_values(|s: GameSlot| Some(s@)),
        decreases n - i,
    {
        let ghost before = taken@;
        taken.push(Some(slots[i].clone()));
        assert(taken@.map_values(|s: Option<GameSlot>| slot_view(s))
            =~= before.map_values(|s: Option<GameSlot>| slot_view(s)).push(Some(slots_v[i as int]@)));
        assert(taken@.map_values(|s: Option<GameSlot>| slot_view(s))
            =~= slots_v.take(i + 1).map_values(|s: GameSlot| Some(s@)));
        i = i + 1;
    }
    assert(slots_v.take(n as int) =~= slots_v);
    games.slots = taken;
    assert(games@ =~= slots_v.map_values(|s: GameSlot| Some(s@)));
    let mut k: usize = 0;
    while k < n
        invariant
            n == st.len(),
            restored.states@ == st,
            k <= n,
            states@ == s0.union_prefer_right(Map::new(|j: usize| j < k, |j: usize| st[j as int])),
        decreases n - k,
    {
        states.states.insert(k, restored.states[k]);
        assert(states@ =~= s0.union_prefer_right(Map::new(|j: usize| j < k + 1, |j: usize| st[j as int])));
        k = k + 1;
    }
}

/// Closes a restored betting window when its time comes, in memory and in
/// the database.
pub fn expire_restored_bets(states: &mut BetStateData, db: &mut Database, index: usize, black: String, white: String)
    requires
        old(db).wf(),
        old(states)@.contains_key(index),
    ensures
        final(db).wf(),
        final(states)@ == old(states)@.insert(index, BetState::WaitingResult),
        final(db)@ == set_game_state(old(db)@, black@, white@, state_code(BetState::WaitingResult)),
{
    states.states.insert(index, BetState::WaitingResult);
    update_game_state(black, white, BetState::WaitingResult.into(), db);
}

proof fn lemma_timers_have_windows(games: Seq<GameView>, starts: Seq<Option<(i64, u32)>>, now: (i64, u32), n: nat)
    requires
        n <= games.len(),
        games.len() <= usize::MAX,
    ensures
        forall|k: int| 0 <= k < timers_upto(games, starts, now, n).len() ==> {
            let t = #[trigger] timers_upto(games, starts, now, n)[k];
            &&& t.index < n
            &&& games[t.index as int].start.len() != 0
        },
    decreases n,
{
    if n > 0 {
        lemma_timers_have_windows(games, starts, now, (n - 1) as nat);
        let p = timers_upto(games, starts, now, (n - 1) as nat);
        let q = timers_upto(games, starts, now, n);
        assert forall|k: int| 0 <= k < q.len() implies {
            let t = #[trigger] q[k];
            &&& t.index < n
            &&& games[t.index as int].start.len() != 0
        } by {
            if k < p.len() {
                assert(q[k] == p[k]);
            } else {
                assert(q[k].index == (n - 1) as usize);
            }
        }
    }
}

/// A game with no betting window gets back the betting state recorded in
/// the database (0 not betting, 1 betting, 2 waiting for the result), and
/// only games with a betting window get a timer.
pub proof fn law_restore_keeps_recorded_state(games: Seq<GameView>, starts: Seq<Option<(i64, u32)>>, now: (i64, u32), r: Restored)
    requires
        restored_from(games, starts, now, r),
    ensures
        forall|i: int| 0 <= i < games.len() && games[i].start.len() == 0 && 0 <= games[i].state <= 2
            ==> state_code(#[trigger] r.states@[i]) == games[i].state,
        forall|k: int| 0 <= k < r.timers@.len() ==> {
            let t = #[trigger] r.timers@[k];
            &&& t.index < games.len()
            &&& games[t.index as int].start.len() != 0
        },
{
    assert forall|i: int| 0 <= i < games.len() && games[i].start.len() == 0 && 0 <= games[i].state <= 2
        implies state_code(#[trigger] r.states@[i]) == games[i].state by {
        assert(r.states@[i] == restored_state(games[i], starts[i], now));
    }
    assert(games.len() <= usize::MAX) by {
        assert(r.slots@.len() == r.slots.len());
    }
    lemma_timers_have_windows(games, starts, now, games.len());
    let tv = timers_upto(games, starts, now, games.len());
    assert forall|k: int| 0 <= k < r.timers@.len() implies {
        let t = #[trigger] r.timers@[k];
        &&& t.index < games.len()
        &&& games[t.index as int].start.len() != 0
    } by {
        assert(r.timers@.map_values(|t: RestoreTimer| t@)[k] == r.timers@[k]@);
        assert(tv[k] == r.timers@[k]@);
    }
}

} // verus!
