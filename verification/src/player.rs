//! The two players of a game.
use vstd::prelude::*;

verus! {

/// One of the two players of a Faritany game.
#[derive(Debug, Clone, Copy, PartialEq, Eq, Structural, Hash)]
pub enum Player {
    PLAYER_1,
    PLAYER_2,
}

/// The name under which a player is shown to clients (the `Debug` form of the variant).
pub open spec fn player_name(p: Player) -> Seq<char> {
    match p {
        Player::PLAYER_1 => seq!['P', 'L', 'A', 'Y', 'E', 'R', '_', '1'],
        Player::PLAYER_2 => seq!['P', 'L', 'A', 'Y', 'E', 'R', '_', '2'],
    }
}

/// The player who moves after `p`.
pub open spec fn other_player(p: Player) -> Player {
    match p {
        Player::PLAYER_1 => Player::PLAYER_2,
        Player::PLAYER_2 => Player::PLAYER_1,
    }
}

impl Player {
    /// The player's name, as `format!("{:?}", player)` writes it.
    pub fn debug_name(&self) -> (r: String)
        ensures
            r@ == player_name(*self),
    {
        match self {
            Player::PLAYER_1 => {
                let s = "PLAYER_1";
                proof {
                    reveal_strlit("PLAYER_1");
                }
                String::from_str(s)
            },
            Player::PLAYER_2 => {
                let s = "PLAYER_2";
                proof {
                    reveal_strlit("PLAYER_2");
                }
                String::from_str(s)
            },
        }
    }

    /// The player who moves after this one.
    pub fn other(&self) -> (r: Player)
        ensures
            r == other_player(*self),
    {
        match self {
            Player::PLAYER_1 => Player::PLAYER_2,
            Player::PLAYER_2 => Player::PLAYER_1,
        }
    }
}

} // verus!
