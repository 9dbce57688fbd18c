//! The bot's memory of the games it announced: for each game id the players
//! and the pinned announcement, and where betting on that game stands.

use vstd::prelude::*;
use std::collections::HashMap;

verus! {

broadcast use vstd::std_specs::hash::group_hash_axioms;

/// Where betting on a game stands.
#[derive(Debug, Clone, Copy, PartialEq, Eq, Structural)]
pub enum BetState {
    NotBetting,
    Betting,
    WaitingResult,
}

/// The number that stands for a betting state in the database.
pub open spec fn state_code(state: BetState) -> i32 {
    match state {
        BetState::NotBetting => 0,
        BetState::Betting => 1,
        BetState::WaitingResult => 2,
    }
}

/// The betting state a number of the database stands for; an unknown number
/// reads as `NotBetting`.
pub open spec fn state_of_code(code: i32) -> BetState {
    if code == 1 {
        BetState::Betting
    } else if code == 2 {
        BetState::WaitingResult
    } else {
        BetState::NotBetting
    }
}

impl From<BetState> for i32 {
    fn from(state: BetState) -> (r: i32)
        ensures
            r == state_code(state),
    {
        match state {
            BetState::NotBetting => 0,
            BetState::Betting => 1,
            BetState::WaitingResult => 2,
        }
    }
}

impl vstd::std_specs::convert::FromSpecImpl<BetState> for i32 {
    open spec fn obeys_from_spec() -> bool {
        true
    }

    open spec fn from_spec(v: BetState) -> i32 {
        state_code(v)
    }
}

impl From<i32> for BetState {
    fn from(state: i32) -> (r: BetState)
        ensures
            r == state_of_code(state),
    {
        match state {
            0 => BetState::NotBetting,
            1 => BetState::Betting,
            2 => BetState::WaitingResult,
            _ => BetState::NotBetting,
        }
    }
}

impl vstd::std_specs::convert::FromSpecImpl<i32> for BetState {
    open spec fn obeys_from_spec() -> bool {
        true
    }

    open spec fn from_spec(v: i32) -> BetState {
        state_of_code(v)
    }
}

/// A state written to the database reads back as itself, and the numbers
/// 0, 1 and 2 are the ones the states are written as.
pub proof fn law_state_code_roundtrip(state: BetState, code: i32)
    ensures
        state_of_code(state_code(state)) == state,
        0 <= code <= 2 ==> state_code(state_of_code(code)) == code,
{
}

/// A game the bot announced: its players and, once pinned, the id of the
/// announcement message.
#[derive(Debug, PartialEq, Eq)]
pub struct GameSlot {
    pub black: String,
    pub white: String,
    pub pin: Option<u64>,
}

/// Mathematical form of a game slot.
pub struct GameSlotView {
    pub black: Seq<char>,
    pub white: Seq<char>,
    pub pin: Option<u64>,
}

impl View for GameSlot {
    type V = GameSlotView;

    open spec fn view(&self) -> GameSlotView {
        GameSlotView { black: self.black@, white: self.white@, pin: self.pin }
    }
}

impl Clone for GameSlot {
    fn clone(&self) -> (r: Self)
        ensures
            r@ == self@,
    {
        GameSlot { black: self.black.clone(), white: self.white.clone(), pin: self.pin }
    }
}

pub open spec fn slot_view(s: Option<GameSlot>) -> Option<GameSlotView> {
    match s {
        Some(g) => Some(g@),
        None => None,
    }
}

/// Where betting stands on each game id.
pub struct BetStateData {
    pub states: HashMap<usize, BetState>,
}

impl View for BetStateData {
    type V = Map<usize, BetState>;

    open spec fn view(&self) -> Map<usize, BetState> {
        self.states@
    }
}

impl BetStateData {
    /// No game id is known.
    pub fn new() -> (r: BetStateData)
        ensures
            r@ == Map::<usize, BetState>::empty(),
    {
        BetStateData { states: HashMap::new() }
    }
}

/// The announced games, indexed by game id; a finished game leaves an empty
/// slot that the next game reuses.
pub struct GameData {
    pub slots: Vec<Option<GameSlot>>,
}

impl View for GameData {
    type V = Seq<Option<GameSlotView>>;

    open spec fn view(&self) -> Seq<Option<GameSlotView>> {
        self.slots@.map_values(|s: Option<GameSlot>| slot_view(s))
    }
}

impl GameData {
    /// No game is announced.
    pub fn new() -> (r: GameData)
        ensures
            r@ == Seq::<Option<GameSlotView>>::empty(),
    {
        let r = GameData { slots: Vec::new() };
        assert(r@ =~= Seq::<Option<GameSlotView>>::empty());
        r
    }
}

} // verus!
