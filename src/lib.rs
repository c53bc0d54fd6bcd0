//! A Texas Hold'em table engine: cards and deck, the five/seven card hand
//! evaluator, and the betting-round state machine with showdown payouts.

pub mod cards;
pub mod deck;
pub mod game;
pub mod hand;
pub mod laws;
pub mod models;
pub mod showdown;
pub mod table;

pub use cards::{Card, Rank, Suit};
pub use hand::{HandEvaluation, HandRank};
pub use models::{
    CreateRoomRequest, CreateRoomResponse, Game, GameActionMessage, GameState, JoinRoomRequest,
    JoinRoomResponse, Player, PlayerAction,
};
pub use showdown::{GameSnapshot, HandReport, PlayerHand, ShowdownResult};
pub use table::{ActionError, MAX_PLAYERS};
