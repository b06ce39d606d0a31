//! One Faritany game: the board, who plays which colour, whose turn it is,
//! and the turn timer.
use std::collections::HashMap;
use vstd::prelude::*;
use crate::clock::{Moment, elapsed_seconds, trunc_div, seconds_between, trunc_div_i128, current_moment};
use crate::grid::{Grid, place_stone_spec, point_key_list};
use crate::message::{MessageClient, MessageServeurFaritany};
use crate::player::{Player, player_name, other_player};
use crate::point::{Point, int_decimal, append_int_decimal};

verus! {

broadcast use vstd::std_specs::hash::group_hash_axioms;

/// A Faritany game.
#[derive(Debug, Clone)]
pub struct FaritanyLogique {
    pub grid: Grid,
    /// The player whose turn it is.
    pub joueur_courant: Player,
    /// The seated users, by user id, with their player.
    pub joueurs: HashMap<i32, Player>,
    /// When the current turn started (unset until the first move is checked).
    pub tour_commence_at: Option<Moment>,
    /// Length of a turn, in seconds.
    pub duree_tour_secondes: i64,
}

/// Whether the timer says that the turn has passed to the other player: the
/// whole number of turn lengths elapsed since the turn started is odd (and positive).
pub open spec fn turn_overdue(started: Moment, now: Moment, period: int) -> bool {
    let q = trunc_div(elapsed_seconds(started, now), period);
    q > 0 && q % 2 == 1
}

/// What checking the turn of `joueur` at `now` gives: whether `joueur` may
/// go on, the player whose turn it is afterwards, and when the turn started.
///
/// Before the first check the timer starts. After that, when the timer says
/// that the turn has passed, a player who was waiting takes the turn, while
/// the player who had it may not move.
pub open spec fn check_turn(
    courant: Player,
    started: Option<Moment>,
    period: int,
    joueur: Player,
    now: Moment,
) -> (bool, Player, Option<Moment>) {
    match started {
        None => (true, courant, Some(now)),
        Some(debut) => if turn_overdue(debut, now, period) && courant != joueur {
            (true, other_player(courant), started)
        } else if turn_overdue(debut, now, period) {
            (false, courant, started)
        } else {
            (true, courant, started)
        },
    }
}

/// What handling a placement asked by `user_id` does, the turn being checked
/// at `check_time` and the timer restarted at `place_time`.
///
/// A user who is not seated changes nothing and gets no answer. Otherwise
/// the turn is checked first (see `check_turn`); the stone goes down when
/// its cell is empty and it is the user's turn, which then passes to the
/// other player, and everyone learns of the placement.
pub open spec fn placement_outcome(
    before: FaritanyLogique,
    after: FaritanyLogique,
    r: Option<MessageServeurFaritany>,
    message_content: MessageClient,
    user_id: i32,
    check_time: Moment,
    place_time: Moment,
) -> bool {
    &&& after.joueurs == before.joueurs
    &&& after.duree_tour_secondes == before.duree_tour_secondes
    &&& !before.joueurs@.contains_key(user_id) ==> r is None && after == before
    &&& before.joueurs@.contains_key(user_id) ==> ({
        let role = before.joueurs@[user_id];
        let point = message_content->point;
        let (ok, courant, started) = check_turn(
            before.joueur_courant,
            before.tour_commence_at,
            before.duree_tour_secondes as int,
            role,
            check_time,
        );
        if ok && !before.grid@.cells.contains_key(point) && courant == role {
            &&& after.grid@ == place_stone_spec(before.grid@, point, role).0
            &&& after.joueur_courant == other_player(role)
            &&& after.tour_commence_at == Some(place_time)
            &&& r matches Some(MessageServeurFaritany::PlacementPoint { point: p, player: name })
                && p == point && name@ == player_name(role)
        } else {
            &&& after.grid == before.grid
            &&& after.joueur_courant == courant
            &&& after.tour_commence_at == started
            &&& r is None
        }
    })
}

/// `after` is `before` with the turn handed to the other player.
pub open spec fn turn_passed(before: FaritanyLogique, after: FaritanyLogique) -> bool {
    &&& after.joueur_courant == other_player(before.joueur_courant)
    &&& after.grid == before.grid
    &&& after.joueurs == before.joueurs
    &&& after.tour_commence_at == before.tour_commence_at
    &&& after.duree_tour_secondes == before.duree_tour_secondes
}

/// Handing the turn over always changes whose turn it is, and handing it
/// over twice gives back the game as it was.
pub proof fn lemma_two_passes_cancel(f0: FaritanyLogique, f1: FaritanyLogique, f2: FaritanyLogique)
    requires
        turn_passed(f0, f1),
        turn_passed(f1, f2),
    ensures
        f1.joueur_courant != f0.joueur_courant,
        f2 == f0,
{
}

/// The player that a newcomer gets when `n` users are seated.
pub open spec fn seat_for(n: nat) -> Player {
    if n == 0 {
        Player::PLAYER_1
    } else {
        Player::PLAYER_2
    }
}

/// The text announcing that `user_id` left.
pub open spec fn departure_text(user_id: i32) -> Seq<char> {
    int_decimal(user_id as int) + " s'est d\u{e9}connect\u{e9}."@
}

impl FaritanyLogique {
    /// A new game on a `size` by `size` board, with turns of `reflexion` seconds.
    pub fn new(size: i32, reflexion: i64) -> (r: FaritanyLogique)
        ensures
            r.grid.wf(),
            r.grid@.cells == Map::<Point, Option<Player>>::empty(),
            r.grid@.loops == Seq::<(Seq<Point>, Player)>::empty(),
            r.grid@.disabled == Set::<Point>::empty(),
            r.grid@.size == size,
            r.joueur_courant == Player::PLAYER_1,
            r.joueurs@ == Map::<i32, Player>::empty(),
            r.tour_commence_at is None,
            r.duree_tour_secondes == reflexion,
    {
        FaritanyLogique {
            grid: Grid::new(size),
            joueur_courant: Player::PLAYER_1,
            joueurs: HashMap::new(),
            tour_commence_at: None,
            duree_tour_secondes: reflexion,
        }
    }

    /// The player of `user_id`, if seated.
    pub fn get_role(&self, user_id: &i32) -> (r: Option<&Player>)
        ensures
            r matches Some(p) ==> self.joueurs@.contains_key(*user_id) && *p == self.joueurs@[*user_id],
            r is None ==> !self.joueurs@.contains_key(*user_id),
    {
        self.joueurs.get(user_id)
    }

    /// Hands the turn to the other player.
    fn passer_tour(&mut self)
        ensures
            turn_passed(*old(self), *final(self)),
    {
        self.joueur_courant = self.joueur_courant.other();
    }

    /// Checks, at moment `now`, whether `joueur` may move (see `check_turn`).
    pub fn verifier_tour_at(&mut self, joueur: Player, now: Moment) -> (r: bool)
        requires
            old(self).tour_commence_at is Some ==> old(self).duree_tour_secondes != 0,
        ensures
            (r, final(self).joueur_courant, final(self).tour_commence_at) == check_turn(
                old(self).joueur_courant,
                old(self).tour_commence_at,
                old(self).duree_tour_secondes as int,
                joueur,
                now,
            ),
            final(self).grid == old(self).grid,
            final(self).joueurs == old(self).joueurs,
            final(self).duree_tour_secondes == old(self).duree_tour_secondes,
    {
        match self.tour_commence_at {
            Some(debut) => {
                let secondes_ecoulees = seconds_between(debut, now);
                let periodes = trunc_div_i128(secondes_ecoulees, self.duree_tour_secondes as i128);
                let depasse = periodes > 0 && periodes % 2 == 1;
                if depasse && self.joueur_courant != joueur {
                    self.passer_tour();
                    return true;
                } else if depasse && self.joueur_courant == joueur {
                    return false;
                }
            },
            None => {
                self.tour_commence_at = Some(now);
            },
        }
        true
    }

    /// Handles a placement asked by `user_id`, checking the turn at
    /// `check_time` and restarting the timer at `place_time` after a placement.
    ///
    /// Only a seated user may play; the turn is checked first (see
    /// `check_turn`); the stone goes down when its cell is empty and it is the
    /// user's turn, which then passes to the other player.
    pub fn play_at(
        &mut self,
        message_content: &MessageClient,
        user_id: &i32,
        check_time: Moment,
        place_time: Moment,
    ) -> (r: Option<MessageServeurFaritany>)
        requires
            old(self).grid.wf(),
            old(self).joueurs@.contains_key(*user_id) && old(self).tour_commence_at is Some
                ==> old(self).duree_tour_secondes != 0,
        ensures
            final(self).grid.wf(),
            final(self).joueurs == old(self).joueurs,
            final(self).duree_tour_secondes == old(self).duree_tour_secondes,
            !old(self).joueurs@.contains_key(*user_id) ==> r is None && *final(self) == *old(self),
            placement_outcome(*old(self), *final(self), r, *message_content, *user_id, check_time, place_time),
    {
        let role = match self.get_role(user_id) {
            Some(r) => *r,
            None => {
                return None;
            },
        };
        if !self.verifier_tour_at(role, check_time) {
            return None;
        }
        let point = message_content.point();
        if self.grid.is_cell_empty(&point) && self.joueur_courant == role {
            let courant = self.joueur_courant;
            self.grid.place_stone(point, courant);
            let message_server = MessageServeurFaritany::PlacementPoint {
                point,
                player: courant.debug_name(),
            };
            self.passer_tour();
            self.tour_commence_at = Some(place_time);
            return Some(message_server);
        }
        None
    }

    /// Handles a placement asked by `user_id`, reading the clock for the turn
    /// timer: the same as `play_at` at some two moments.
    pub fn place_from_client(&mut self, message_content: &MessageClient, user_id: &i32) -> (r:
        Option<MessageServeurFaritany>)
        requires
            old(self).grid.wf(),
            old(self).joueurs@.contains_key(*user_id) && old(self).tour_commence_at is Some
                ==> old(self).duree_tour_secondes != 0,
        ensures
            final(self).grid.wf(),
            final(self).joueurs == old(self).joueurs,
            final(self).duree_tour_secondes == old(self).duree_tour_secondes,
            !old(self).joueurs@.contains_key(*user_id) ==> r is None && *final(self) == *old(self),
            exists|check_time: Moment, place_time: Moment|
                #[trigger] placement_outcome(
                    *old(self),
                    *final(self),
                    r,
                    *message_content,
                    *user_id,
                    check_time,
                    place_time,
                ),
    {
        let check_time = current_moment();
        let place_time = current_moment();
        self.play_at(message_content, user_id, check_time, place_time)
    }

    /// Seats `user_id`, or sends the board to a user who is seated already.
    ///
    /// A seated user gets the whole board and nothing changes. A newcomer
    /// gets the first player when nobody is seated, the second when one user
    /// is, and nothing when two are.
    pub fn connect_user(&mut self, user_id: i32, user_pseudo: String) -> (r: Option<
        MessageServeurFaritany,
    >)
        requires
            old(self).grid.wf(),
        ensures
            final(self).grid == old(self).grid,
            final(self).joueur_courant == old(self).joueur_courant,
            final(self).tour_commence_at == old(self).tour_commence_at,
            final(self).duree_tour_secondes == old(self).duree_tour_secondes,
            old(self).joueurs@.contains_key(user_id) ==> final(self).joueurs@ == old(self).joueurs@
                && (r matches Some(MessageServeurFaritany::ListePointsFaritany { points })
                && point_key_list(old(self).grid, points@)),
            !old(self).joueurs@.contains_key(user_id) && old(self).joueurs@.len() < 2 ==> ({
                let role = seat_for(old(self).joueurs@.len());
                &&& final(self).joueurs@ == old(self).joueurs@.insert(user_id, role)
                &&& r matches Some(
                    MessageServeurFaritany::AttributionJoueur {
                        pseudo,
                        localPlayer,
                        currentPlayer,
                    },
                ) && pseudo == user_pseudo && localPlayer@ == player_name(role) && currentPlayer == (
                old(self).joueur_courant == role)
            }),
            !old(self).joueurs@.contains_key(user_id) && old(self).joueurs@.len() >= 2 ==> r is None
                && final(self).joueurs@ == old(self).joueurs@,
    {
        if self.joueurs.contains_key(&user_id) {
            let points_vec = self.grid.get_Cell();
            return Some(MessageServeurFaritany::ListePointsFaritany { points: points_vec });
        }
        let n = self.joueurs.len();
        let role = if n == 0 {
            Player::PLAYER_1
        } else if n == 1 {
            Player::PLAYER_2
        } else {
            return None;
        };
        self.joueurs.insert(user_id, role);
        let local = role.debug_name();
        Some(
            MessageServeurFaritany::AttributionJoueur {
                pseudo: user_pseudo,
                localPlayer: local,
                currentPlayer: self.joueur_courant == role,
            },
        )
    }

    /// Unseats `user_id` and announces it.
    pub fn disconnect_user(&mut self, user_id: i32, _user_pseudo: String) -> (r: Option<String>)
        ensures
            final(self).joueurs@ == old(self).joueurs@.remove(user_id),
            final(self).grid == old(self).grid,
            final(self).joueur_courant == old(self).joueur_courant,
            final(self).tour_commence_at == old(self).tour_commence_at,
            final(self).duree_tour_secondes == old(self).duree_tour_secondes,
            r matches Some(s) && s@ == departure_text(user_id),
    {
        self.joueurs.remove(&user_id);
        let mut s = String::new();
        append_int_decimal(&mut s, user_id);
        let tail = " s'est d\u{e9}connect\u{e9}.";
        s.append(tail);
        Some(s)
    }
}

// ---------------------------------------------------------------------------
// Laws of a game
// ---------------------------------------------------------------------------

/// A placement that is answered put a stone of the sender's player on a cell
/// that was empty, the sender having the turn, and handed the turn to the
/// other player; a placement that is not answered leaves the board as it was.
pub proof fn lemma_placement_answered(
    before: FaritanyLogique,
    after: FaritanyLogique,
    r: Option<MessageServeurFaritany>,
    message_content: MessageClient,
    user_id: i32,
    check_time: Moment,
    place_time: Moment,
)
    requires
        placement_outcome(before, after, r, message_content, user_id, check_time, place_time),
    ensures
        r is None ==> after.grid == before.grid,
        r is Some ==> ({
            let role = before.joueurs@[user_id];
            let point = message_content->point;
            &&& before.joueurs@.contains_key(user_id)
            &&& !before.grid@.cells.contains_key(point)
            &&& check_turn(
                before.joueur_courant,
                before.tour_commence_at,
                before.duree_tour_secondes as int,
                role,
                check_time,
            ).1 == role
            &&& after.grid@.cells.contains_key(point)
            &&& after.grid@.cells[point] == Some(role)
            &&& after.joueur_courant == other_player(role)
        }),
{
    if before.joueurs@.contains_key(user_id) {
        let role = before.joueurs@[user_id];
        let point = message_content->point;
        crate::grid::lemma_place_stone_effects(before.grid@, point, role);
    }
}

/// A seated user asking for an empty cell, whose turn check lets them move
/// and leaves them holding the turn (also when the check has just taken the
/// turn over from the other, idle player), gets the stone placed: the
/// placement is announced with the user's player, the cell holds the
/// stone, and the turn passes to the other player.
pub proof fn lemma_granted_turn_places(
    before: FaritanyLogique,
    after: FaritanyLogique,
    r: Option<MessageServeurFaritany>,
    message_content: MessageClient,
    user_id: i32,
    check_time: Moment,
    place_time: Moment,
)
    requires
        placement_outcome(before, after, r, message_content, user_id, check_time, place_time),
        before.joueurs@.contains_key(user_id),
        !before.grid@.cells.contains_key(message_content->point),
        check_turn(
            before.joueur_courant,
            before.tour_commence_at,
            before.duree_tour_secondes as int,
            before.joueurs@[user_id],
            check_time,
        ).0,
        check_turn(
            before.joueur_courant,
            before.tour_commence_at,
            before.duree_tour_secondes as int,
            before.joueurs@[user_id],
            check_time,
        ).1 == before.joueurs@[user_id],
    ensures
        r is Some,
        r->0 == (MessageServeurFaritany::PlacementPoint {
            point: message_content->point,
            player: r->0->player,
        }),
        r->0->player@ == player_name(before.joueurs@[user_id]),
        after.grid@.cells.contains_key(message_content->point),
        after.grid@.cells[message_content->point] == Some(before.joueurs@[user_id]),
        after.joueur_courant == other_player(before.joueurs@[user_id]),
        after.tour_commence_at == Some(place_time),
{
    crate::grid::lemma_place_stone_effects(before.grid@, message_content->point, before.joueurs@[user_id]);
}

/// The turn timer. Once the turn has run for an odd number of whole turn
/// lengths (1, 3, 5, ...), the player holding it may not move and keeps it,
/// while the waiting player may move and takes it over; after an even
/// number of whole turn lengths (0, 2, ...), the holder may move and keeps
/// the turn, and so does a check by the waiting player.
pub proof fn lemma_turn_timer(courant: Player, started: Moment, period: int, now: Moment)
    requires
        period > 0,
        elapsed_seconds(started, now) >= 0,
    ensures
        (elapsed_seconds(started, now) / period) % 2 == 1 ==> check_turn(
            courant,
            Some(started),
            period,
            courant,
            now,
        ) == (false, courant, Some(started)) && check_turn(
            courant,
            Some(started),
            period,
            other_player(courant),
            now,
        ) == (true, other_player(courant), Some(started)),
        (elapsed_seconds(started, now) / period) % 2 == 0 ==> check_turn(
            courant,
            Some(started),
            period,
            courant,
            now,
        ) == (true, courant, Some(started)) && check_turn(
            courant,
            Some(started),
            period,
            other_player(courant),
            now,
        ) == (true, courant, Some(started)),
{
    assert(other_player(courant) != courant) by {
        match courant {
            Player::PLAYER_1 => {},
            Player::PLAYER_2 => {},
        }
    }
}

/// Before a whole turn length has passed (or when the clock reads a moment
/// before the turn started), the turn is never overdue: the holder may move
/// and keeps it.
pub proof fn lemma_turn_not_yet_overdue(courant: Player, joueur: Player, started: Moment, period: int, now: Moment)
    requires
        period > 0,
        elapsed_seconds(started, now) < period,
    ensures
        check_turn(courant, Some(started), period, joueur, now) == (true, courant, Some(started)),
{
    let e = elapsed_seconds(started, now);
    if e < 0 {
        assert((-e) / period >= 0) by (nonlinear_arith)
            requires
                -e > 0,
                period > 0,
        ;
        assert(trunc_div(e, period) <= 0);
    } else {
        assert(e / period == 0) by (nonlinear_arith)
            requires
                0 <= e < period,
        ;
        assert(trunc_div(e, period) == 0);
    }
    assert(!turn_overdue(started, now, period));
}

} // verus!
