//! The messages that clients and the server exchange, as plain values.
//! They are turned into JSON text at the edge of the server.
use vstd::prelude::*;
use crate::player::Player;
use crate::point::Point;

verus! {

/// What the server tells the players of a Faritany room.
#[derive(Debug, Clone)]
pub enum MessageServeurFaritany {
    /// A stone was placed on `point` by `player` (the player's name).
    PlacementPoint { point: Point, player: String },
    /// A client was given a seat: its pseudonym, the name of its player, and
    /// whether that player is the one to move.
    AttributionJoueur { pseudo: String, localPlayer: String, currentPlayer: bool },
    /// The whole board: each occupied cell by its key, with what it holds.
    ListePointsFaritany { points: Vec<(String, Option<Player>)> },
}

/// What a client of a game room asks.
#[derive(Debug, Clone)]
pub enum MessageClient {
    /// Put a stone on `point`.
    PlaceStone { point: Point },
}

/// What the lobby tells the members of a room about the room itself.
#[derive(Debug, Clone)]
pub enum MessageWebSocket {
    UserJoined { user_id: i32, pseudo: String },
    UserDisconnected { user_id: i32, pseudo: String },
    Chat { user_id: i32, message: String },
}

/// A text frame for one client connection.
#[derive(Debug, Clone)]
pub struct WsMessage(pub String);

impl MessageClient {
    /// The point that a placement asks for.
    pub fn point(&self) -> (r: Point)
        ensures
            *self == (MessageClient::PlaceStone { point: r }),
    {
        match self {
            MessageClient::PlaceStone { point } => *point,
        }
    }
}

} // verus!
