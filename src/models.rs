use std::collections::HashMap;
use vstd::prelude::*;

use crate::cards::Card;

verus! {

/// A seat at the table.
#[derive(Clone, Debug)]
pub struct Player {
    pub id: String,
    pub name: String,
    /// Chips in front of the player, not yet committed to the pot.
    pub chips: u32,
    /// Hole cards: none between hands, two during a hand.
    pub hand: Vec<Card>,
    /// Chips committed during the current street.
    pub current_bet: u32,
    pub is_folded: bool,
    pub is_all_in: bool,
}

/// The street a hand is on.
#[derive(Clone, Copy, Debug, PartialEq, Eq, Structural)]
pub enum GameState {
    Waiting,
    PreFlop,
    Flop,
    Turn,
    River,
    Showdown,
    Finished,
}

impl GameState {
    /// The four streets on which players bet.
    pub open spec fn is_betting_street(self) -> bool {
        self == GameState::PreFlop || self == GameState::Flop || self == GameState::Turn
            || self == GameState::River
    }
}

/// What a player does when it is their turn.
#[derive(Clone, Copy, Debug, PartialEq, Eq, Structural)]
pub enum PlayerAction {
    Fold,
    Check,
    Call,
    /// Raise by this many chips over the amount needed to call.
    Raise(u32),
    AllIn,
}

/// The table: players in seat order and the state of the hand in play.
#[derive(Clone, Debug)]
pub struct Game {
    pub id: String,
    pub players: Vec<Player>,
    /// Undealt cards; dealing takes from the end.
    pub deck: Vec<Card>,
    pub community_cards: Vec<Card>,
    pub pot: u32,
    /// The highest street bet that players must match.
    pub current_bet: u32,
    pub current_player_index: usize,
    pub dealer_index: usize,
    pub small_blind: u32,
    pub big_blind: u32,
    pub state: GameState,
    /// The seats that have acted (or posted a blind) on the current street,
    /// keyed by seat index, with what each has put in during the street.
    pub round_bets: HashMap<usize, u32>,
}

/// Body of a request to open a room.
#[derive(Clone, Debug)]
pub struct CreateRoomRequest {
    pub creator_name: String,
    pub max_players: Option<usize>,
}

/// Reply to a room creation.
#[derive(Clone, Debug)]
pub struct CreateRoomResponse {
    pub room_id: String,
    pub player_id: String,
}

/// Body of a request to join a room.
#[derive(Clone, Debug)]
pub struct JoinRoomRequest {
    pub player_name: String,
}

/// Reply to a join request.
#[derive(Clone, Debug)]
pub struct JoinRoomResponse {
    pub success: bool,
    pub message: String,
    pub player_id: Option<String>,
}

/// A player's action as sent by a client.
#[derive(Clone, Debug)]
pub struct GameActionMessage {
    pub player_id: String,
    pub action: PlayerAction,
}

} // verus!
