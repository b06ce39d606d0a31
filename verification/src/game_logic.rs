//! What a game of a room does with the events of the room, and the messages
//! it answers with, each addressed to some users of the room.
use vstd::prelude::*;
use crate::clock::Moment;
use crate::faritany_logique::{FaritanyLogique, placement_outcome, seat_for, departure_text};
use crate::grid::point_key_list;
use crate::message::{MessageClient, MessageServeurFaritany};
use crate::player::player_name;

verus! {

broadcast use vstd::std_specs::hash::group_hash_axioms;

/// The users a message is for: the listed user ids, or everyone in the room
/// when the list is empty.
#[derive(Debug, Clone, PartialEq, Eq, Hash)]
pub struct VecKey(pub Vec<i32>);

/// A message of a game.
#[derive(Debug, Clone)]
pub enum GameMessage {
    Faritany(MessageServeurFaritany),
    Text(String),
}

/// The messages of an answer that goes to the whole room: one message when
/// there is an answer, none when there is not.
pub open spec fn room_answer(m: Option<GameMessage>, r: Seq<(VecKey, GameMessage)>) -> bool {
    match m {
        None => r.len() == 0,
        Some(msg) => r.len() == 1 && r[0].0.0@ == Seq::<i32>::empty() && r[0].1 == msg,
    }
}

/// Wraps an optional message as an answer to the whole room.
fn to_room(m: Option<GameMessage>) -> (r: Vec<(VecKey, GameMessage)>)
    ensures
        room_answer(m, r@),
{
    let mut r: Vec<(VecKey, GameMessage)> = Vec::new();
    match m {
        Some(msg) => {
            r.push((VecKey(Vec::new()), msg));
        },
        None => {},
    }
    r
}

/// The faritany message, if any, as a game message.
pub open spec fn as_game(m: Option<MessageServeurFaritany>) -> Option<GameMessage> {
    match m {
        Some(x) => Some(GameMessage::Faritany(x)),
        None => None,
    }
}

/// What handling a message of `user` does to a Faritany game, answering `out`
/// (see `placement_outcome`, at some moments read from the clock).
pub open spec fn client_step(
    before: FaritanyLogique,
    after: FaritanyLogique,
    message_content: MessageClient,
    user: i32,
    out: Seq<(VecKey, GameMessage)>,
) -> bool {
    exists|check_time: Moment, place_time: Moment, answer: Option<MessageServeurFaritany>|
        #[trigger] placement_outcome(before, after, answer, message_content, user, check_time, place_time)
            && room_answer(as_game(answer), out)
}

/// What a user joining does to a Faritany game, answering `out`.
pub open spec fn connect_step(
    before: FaritanyLogique,
    after: FaritanyLogique,
    user: i32,
    pseudo: String,
    out: Seq<(VecKey, GameMessage)>,
) -> bool {
    &&& after.grid == before.grid
    &&& after.joueur_courant == before.joueur_courant
    &&& after.tour_commence_at == before.tour_commence_at
    &&& after.duree_tour_secondes == before.duree_tour_secondes
    &&& before.joueurs@.contains_key(user) ==> after.joueurs@ == before.joueurs@ && out.len() == 1
        && out[0].0.0@ == Seq::<i32>::empty() && (out[0].1 matches GameMessage::Faritany(
        MessageServeurFaritany::ListePointsFaritany { points },
    ) && point_key_list(before.grid, points@))
    &&& !before.joueurs@.contains_key(user) && before.joueurs@.len() < 2 ==> ({
        let role = seat_for(before.joueurs@.len());
        &&& after.joueurs@ == before.joueurs@.insert(user, role)
        &&& out.len() == 1 && out[0].0.0@ == Seq::<i32>::empty()
        &&& out[0].1 matches GameMessage::Faritany(
            MessageServeurFaritany::AttributionJoueur { pseudo: p, localPlayer, currentPlayer },
        ) && p == pseudo && localPlayer@ == player_name(role) && currentPlayer == (
        before.joueur_courant == role)
    })
    &&& !before.joueurs@.contains_key(user) && before.joueurs@.len() >= 2 ==> out.len() == 0
        && after.joueurs@ == before.joueurs@
}

/// What a user leaving does to a Faritany game, answering `out`.
pub open spec fn deconnect_step(
    before: FaritanyLogique,
    after: FaritanyLogique,
    user: i32,
    out: Seq<(VecKey, GameMessage)>,
) -> bool {
    &&& after.joueurs@ == before.joueurs@.remove(user)
    &&& after.grid == before.grid
    &&& after.joueur_courant == before.joueur_courant
    &&& after.tour_commence_at == before.tour_commence_at
    &&& after.duree_tour_secondes == before.duree_tour_secondes
    &&& out.len() == 1 && out[0].0.0@ == Seq::<i32>::empty() && (out[0].1 matches GameMessage::Text(s)
        && s@ == departure_text(user))
}

/// A game played in a room.
pub trait GameLogic {
    /// The game is in a state in which it can handle events.
    spec fn ready(&self) -> bool;

    /// The game can handle a message from `user_id` without failing.
    spec fn accepts(&self, user_id: i32) -> bool;

    /// A user of the room sent `message_content`.
    fn handle_client_message(&mut self, message_content: &MessageClient, user_id: &i32) -> (r: Vec<
        (VecKey, GameMessage),
    >)
        requires
            old(self).ready(),
            old(self).accepts(*user_id),
        ensures
            final(self).ready(),
    ;

    /// A user joined the room.
    fn handle_connect(&mut self, user_id: i32, user_pseudo: String) -> (r: Vec<(VecKey, GameMessage)>)
        requires
            old(self).ready(),
        ensures
            final(self).ready(),
    ;

    /// A user left the room.
    fn handle_deconnect(&mut self, user_id: i32, user_pseudo: String) -> (r: Vec<(VecKey, GameMessage)>)
        requires
            old(self).ready(),
        ensures
            final(self).ready(),
    ;
}

impl GameLogic for FaritanyLogique {
    open spec fn ready(&self) -> bool {
        self.grid.wf()
    }

    /// The turn timer divides by the turn length once a seated user moves
    /// after the timer has started.
    open spec fn accepts(&self, user_id: i32) -> bool {
        self.joueurs@.contains_key(user_id) && self.tour_commence_at is Some
            ==> self.duree_tour_secondes != 0
    }

    fn handle_client_message(&mut self, message_content: &MessageClient, user_id: &i32) -> (r: Vec<
        (VecKey, GameMessage),
    >)
        ensures
            client_step(*old(self), *final(self), *message_content, *user_id, r@),
    {
        let answer = FaritanyLogique::place_from_client(self, message_content, user_id);
        let m = match answer {
            Some(x) => Some(GameMessage::Faritany(x)),
            None => None,
        };
        let r = to_room(m);
        proof {
            let (t1, t2) = choose|t1: Moment, t2: Moment|
                #[trigger] placement_outcome(*old(self), *self, answer, *message_content, *user_id, t1, t2);
            assert(placement_outcome(*old(self), *self, answer, *message_content, *user_id, t1, t2)
                && room_answer(as_game(answer), r@));
        }
        r
    }

    fn handle_connect(&mut self, user_id: i32, user_pseudo: String) -> (r: Vec<(VecKey, GameMessage)>)
        ensures
            connect_step(*old(self), *final(self), user_id, user_pseudo, r@),
    {
        let answer = FaritanyLogique::connect_user(self, user_id, user_pseudo);
        let m = match answer {
            Some(x) => Some(GameMessage::Faritany(x)),
            None => None,
        };
        to_room(m)
    }

    fn handle_deconnect(&mut self, user_id: i32, user_pseudo: String) -> (r: Vec<(VecKey, GameMessage)>)
        ensures
            deconnect_step(*old(self), *final(self), user_id, r@),
    {
        let answer = FaritanyLogique::disconnect_user(self, user_id, user_pseudo);
        let m = match answer {
            Some(s) => Some(GameMessage::Text(s)),
            None => None,
        };
        to_room(m)
    }
}

/// At most two users are ever seated in a game: a join keeps the count at two or less.
pub proof fn lemma_seats_bounded(
    before: FaritanyLogique,
    after: FaritanyLogique,
    user: i32,
    pseudo: String,
    out: Seq<(VecKey, GameMessage)>,
)
    requires
        before.joueurs@.len() <= 2,
        connect_step(before, after, user, pseudo, out),
    ensures
        after.joueurs@.len() <= 2,
{
    assert(before.joueurs@.dom().finite());
    if !before.joueurs@.contains_key(user) && before.joueurs@.len() < 2 {
        assert(after.joueurs@.dom() =~= before.joueurs@.dom().insert(user));
    }
}

} // verus!
