//! The decisions of the room lobby: who is connected, who is in which room,
//! which game each room plays, and which message goes to whom when a user
//! joins, leaves, or plays. Sending the messages is left to the caller.
use std::collections::{HashMap, HashSet};
use vstd::prelude::*;
use crate::faritany_logique::FaritanyLogique;
use crate::game_logic::{GameLogic, GameMessage, VecKey, client_step, connect_step, deconnect_step};
use crate::grid::GridModel;
use crate::message::{MessageClient, MessageWebSocket};
use crate::player::Player;
use crate::point::Point;

verus! {

broadcast use vstd::std_specs::hash::group_hash_axioms;

/// What one delivery carries: a message of the room's game (by its position
/// among the game's messages), or the room's own notice.
#[derive(Debug, Clone, Copy, PartialEq, Eq, Structural)]
pub enum Payload {
    Game(usize),
    Room,
}

/// What the lobby sends after an event: the game's messages, the room's
/// notice, and the deliveries, in order, each to one connected user.
pub struct Dispatch {
    pub game_messages: Vec<(VecKey, GameMessage)>,
    pub room_message: Option<MessageWebSocket>,
    pub sends: Vec<(i32, Payload)>,
}

/// The lobby as the contracts speak of it.
pub struct LobbyModel {
    /// Connected users.
    pub sessions: Set<i32>,
    /// Members of each room, in the order in which they joined.
    pub rooms: Map<u128, Seq<i32>>,
    /// The game of each room that has one.
    pub games: Map<u128, FaritanyLogique>,
}

/// The room lobby.
pub struct Lobby {
    sessions: HashSet<i32>,
    rooms: HashMap<u128, Vec<i32>>,
    games: HashMap<u128, FaritanyLogique>,
}

impl View for Lobby {
    type V = LobbyModel;

    closed spec fn view(&self) -> LobbyModel {
        LobbyModel {
            sessions: self.sessions@,
            rooms: self.rooms@.map_values(|v: Vec<i32>| v@),
            games: self.games@,
        }
    }
}

/// The side length of the board and the turn length, in seconds, of a new Faritany game.
pub open spec fn new_game_size() -> int {
    30
}

/// A Faritany game as the lobby creates it: an empty board of 30 by 30 cells,
/// turns of 30 seconds, the first player to move, nobody seated.
pub open spec fn fresh_game(g: FaritanyLogique) -> bool {
    &&& g.grid.wf()
    &&& g.grid@ == (GridModel {
        cells: Map::<Point, Option<Player>>::empty(),
        loops: Seq::<(Seq<Point>, Player)>::empty(),
        disabled: Set::<Point>::empty(),
        size: new_game_size(),
    })
    &&& g.joueur_courant == Player::PLAYER_1
    &&& g.joueurs@ == Map::<i32, Player>::empty()
    &&& g.tour_commence_at is None
    &&& g.duree_tour_secondes == 30
}

pub open spec fn connected_filter(sessions: Set<i32>) -> spec_fn(i32) -> bool {
    |u: i32| sessions.contains(u)
}

pub open spec fn member_filter(members: Seq<i32>, sessions: Set<i32>) -> spec_fn(i32) -> bool {
    |u: i32| members.contains(u) && sessions.contains(u)
}

pub open spec fn others_filter(user: i32, sessions: Set<i32>) -> spec_fn(i32) -> bool {
    |u: i32| u != user && sessions.contains(u)
}

pub open spec fn tag(p: Payload) -> spec_fn(i32) -> (i32, Payload) {
    |u: i32| (u, p)
}

/// The connected users that a game message addressed to `keys` reaches in a
/// room of `members`: every connected member when `keys` is empty, else the
/// listed users that are connected members (in the order listed).
pub open spec fn game_targets(members: Seq<i32>, sessions: Set<i32>, keys: Seq<i32>) -> Seq<i32> {
    if keys.len() == 0 {
        members.filter(connected_filter(sessions))
    } else {
        keys.filter(member_filter(members, sessions))
    }
}

/// The deliveries of the first `k` game messages `msgs` in a room of `members`.
pub open spec fn game_sends(
    members: Seq<i32>,
    sessions: Set<i32>,
    msgs: Seq<(VecKey, GameMessage)>,
    k: int,
) -> Seq<(i32, Payload)>
    decreases k,
{
    if k <= 0 {
        seq![]
    } else {
        game_sends(members, sessions, msgs, k - 1) + game_targets(
            members,
            sessions,
            msgs[k - 1].0.0@,
        ).map_values(tag(Payload::Game((k - 1) as usize)))
    }
}

/// The deliveries of the room's notice about `user`: every other connected member.
pub open spec fn room_sends(members: Seq<i32>, sessions: Set<i32>, user: i32) -> Seq<(i32, Payload)> {
    members.filter(others_filter(user, sessions)).map_values(tag(Payload::Room))
}

/// The members of `room` once `user` has joined it.
pub open spec fn joined_members(m: LobbyModel, room: u128, user: i32) -> Seq<i32> {
    if m.rooms.contains_key(room) {
        if m.rooms[room].contains(user) {
            m.rooms[room]
        } else {
            m.rooms[room].push(user)
        }
    } else {
        seq![user]
    }
}

/// The games after the game of `room` (the one it had, or a new Faritany game
/// when it had none and `game_type` is `"faritany"`) takes a step that `step`
/// describes; no game plays and none is created for another game type.
pub open spec fn game_stepped(
    before: LobbyModel,
    after: LobbyModel,
    room: u128,
    game_type: Seq<char>,
    out: Seq<(VecKey, GameMessage)>,
    step: spec_fn(FaritanyLogique, FaritanyLogique) -> bool,
) -> bool {
    if before.games.contains_key(room) {
        &&& after.games.dom() == before.games.dom()
        &&& after.games.remove(room) == before.games.remove(room)
        &&& step(before.games[room], after.games[room])
    } else if game_type == "faritany"@ {
        &&& after.games.dom() == before.games.dom().insert(room)
        &&& after.games.remove(room) == before.games
        &&& exists|g0: FaritanyLogique| fresh_game(g0) && #[trigger] step(g0, after.games[room])
    } else {
        after.games == before.games && out.len() == 0
    }
}

/// The lobby's bookkeeping is consistent: no room lists a member twice,
/// and every game can handle events, with turns of a positive length.
pub open spec fn lobby_wf(m: LobbyModel) -> bool {
    &&& forall|r: u128| #[trigger] m.rooms.contains_key(r) ==> m.rooms[r].no_duplicates()
    &&& forall|r: u128|
        #[trigger] m.games.contains_key(r) ==> m.games[r].ready() && m.games[r].duree_tour_secondes
            != 0
}

/// Whether `s` reads `"faritany"`.
fn is_faritany(s: &str) -> (r: bool)
    ensures
        r == (s@ == "faritany"@),
{
    let name = "faritany";
    proof {
        reveal_strlit("faritany");
    }
    let n = s.unicode_len();
    if n != 8 {
        return false;
    }
    let mut i: usize = 0;
    while i < 8
        invariant
            n == s@.len(),
            n == 8,
            name@.len() == 8,
            name@ == "faritany"@,
            i <= 8,
            forall|j: int| 0 <= j < i ==> s@[j] == name@[j],
        decreases 8 - i,
    {
        if s.get_char(i) != name.get_char(i) {
            assert(s@[i as int] != name@[i as int]);
            assert(s@ != name@);
            return false;
        }
        i = i + 1;
    }
    assert(s@ =~= name@);
    true
}

proof fn lemma_filter_take_step(s: Seq<i32>, p: spec_fn(i32) -> bool, j: int)
    requires
        0 <= j < s.len(),
    ensures
        s.take(j + 1).filter(p) == if p(s[j]) {
            s.take(j).filter(p).push(s[j])
        } else {
            s.take(j).filter(p)
        },
{
    reveal(Seq::filter);
    assert(s.take(j + 1).drop_last() =~= s.take(j));
}

/// Appends to `out` the deliveries, tagged `p`, to the users of `s` that pass `keep`.
fn push_filtered(
    out: &mut Vec<(i32, Payload)>,
    s: &Vec<i32>,
    members: &Vec<i32>,
    sessions: &HashSet<i32>,
    user: i32,
    mode: u8,
    p: Payload,
    Ghost(keep): Ghost<spec_fn(i32) -> bool>,
)
    requires
        mode == 0 ==> keep == connected_filter(sessions@),
        mode == 1 ==> keep == member_filter(members@, sessions@),
        mode == 2 ==> keep == others_filter(user, sessions@),
        mode <= 2,
    ensures
        final(out)@ == old(out)@ + s@.filter(keep).map_values(tag(p)),
{
    let ghost o = out@;
    let n = s.len();
    let mut j: usize = 0;
    while j < n
        invariant
            n == s@.len(),
            j <= n,
            mode == 0 ==> keep == connected_filter(sessions@),
            mode == 1 ==> keep == member_filter(members@, sessions@),
            mode == 2 ==> keep == others_filter(user, sessions@),
            mode <= 2,
            out@ == o + s@.take(j as int).filter(keep).map_values(tag(p)),
        decreases n - j,
    {
        let u = s[j];
        let pass = if mode == 0 {
            sessions.contains(&u)
        } else if mode == 1 {
            contains_id(members, u) && sessions.contains(&u)
        } else {
            u != user && sessions.contains(&u)
        };
        proof {
            lemma_filter_take_step(s@, keep, j as int);
            assert(pass == keep(u));
        }
        if pass {
            out.push((u, p));
            proof {
                s@.take(j as int).filter(keep).lemma_push_map_commute(tag(p), u);
            }
        }
        j = j + 1;
        assert(out@ =~= o + s@.take(j as int).filter(keep).map_values(tag(p)));
    }
    assert(s@.take(n as int) =~= s@);
}

/// Whether `v` holds `u`.
fn contains_id(v: &Vec<i32>, u: i32) -> (r: bool)
    ensures
        r == v@.contains(u),
{
    let n = v.len();
    let mut i: usize = 0;
    while i < n
        invariant
            n == v@.len(),
            i <= n,
            forall|j: int| 0 <= j < i ==> v@[j] != u,
        decreases n - i,
    {
        if v[i] == u {
            return true;
        }
        i = i + 1;
    }
    false
}

/// The deliveries of the game messages `msgs` in a room of `members`.
fn game_sends_exec(members: &Vec<i32>, sessions: &HashSet<i32>, msgs: &Vec<(VecKey, GameMessage)>) -> (r:
    Vec<(i32, Payload)>)
    ensures
        r@ == game_sends(members@, sessions@, msgs@, msgs@.len() as int),
{
    let mut out: Vec<(i32, Payload)> = Vec::new();
    let n = msgs.len();
    let mut k: usize = 0;
    while k < n
        invariant
            n == msgs@.len(),
            k <= n,
            out@ == game_sends(members@, sessions@, msgs@, k as int),
        decreases n - k,
    {
        let keys = &msgs[k].0.0;
        if keys.len() == 0 {
            push_filtered(
                &mut out,
                members,
                members,
                sessions,
                0,
                0,
                Payload::Game(k),
                Ghost(connected_filter(sessions@)),
            );
        } else {
            push_filtered(
                &mut out,
                keys,
                members,
                sessions,
                0,
                1,
                Payload::Game(k),
                Ghost(member_filter(members@, sessions@)),
            );
        }
        k = k + 1;
    }
    out
}

impl Lobby {
    /// The lobby's bookkeeping is consistent (see `lobby_wf`).
    pub open spec fn wf(&self) -> bool {
        lobby_wf(self@)
    }

    /// An empty lobby.
    pub fn new() -> (r: Lobby)
        ensures
            r.wf(),
            r@.sessions == Set::<i32>::empty(),
            r@.rooms == Map::<u128, Seq<i32>>::empty(),
            r@.games == Map::<u128, FaritanyLogique>::empty(),
    {
        let l = Lobby { sessions: HashSet::new(), rooms: HashMap::new(), games: HashMap::new() };
        assert(l@.rooms =~= Map::<u128, Seq<i32>>::empty());
        l
    }

    /// The connected members of `room_id`, in the order in which they joined
    /// (none when there is no such room): who a message to the room reaches.
    pub fn send_message_room(&self, room_id: u128) -> (r: Vec<i32>)
        ensures
            self@.rooms.contains_key(room_id) ==> r@ == self@.rooms[room_id].filter(
                connected_filter(self@.sessions),
            ),
            !self@.rooms.contains_key(room_id) ==> r@.len() == 0,
    {
        let mut out: Vec<i32> = Vec::new();
        match self.rooms.get(&room_id) {
            Some(members) => {
                let n = members.len();
                let mut j: usize = 0;
                while j < n
                    invariant
                        n == members@.len(),
                        j <= n,
                        out@ == members@.take(j as int).filter(connected_filter(self.sessions@)),
                    decreases n - j,
                {
                    let u = members[j];
                    proof {
                        lemma_filter_take_step(members@, connected_filter(self.sessions@), j as int);
                    }
                    if self.sessions.contains(&u) {
                        out.push(u);
                    }
                    j = j + 1;
                }
                assert(members@.take(n as int) =~= members@);
            },
            None => {},
        }
        out
    }

    /// Whether `user_id` is connected.
    pub fn is_connected(&self, user_id: i32) -> (r: bool)
        ensures
            r == self@.sessions.contains(user_id),
    {
        self.sessions.contains(&user_id)
    }

    /// Whether the room `room_id` exists.
    pub fn has_room(&self, room_id: u128) -> (r: bool)
        ensures
            r == self@.rooms.contains_key(room_id),
    {
        self.rooms.contains_key(&room_id)
    }

    /// The deliveries of the game messages `messages` in `room` (none when there is no such room).
    pub fn broadcast_messages(&self, room_id: u128, messages: &Vec<(VecKey, GameMessage)>) -> (r: Vec<
        (i32, Payload),
    >)
        ensures
            self@.rooms.contains_key(room_id) ==> r@ == game_sends(
                self@.rooms[room_id],
                self@.sessions,
                messages@,
                messages@.len() as int,
            ),
            !self@.rooms.contains_key(room_id) ==> r@.len() == 0,
    {
        match self.rooms.get(&room_id) {
            Some(members) => game_sends_exec(members, &self.sessions, messages),
            None => Vec::new(),
        }
    }
}


/// Removes the first `u` from `v`.
fn remove_id(v: &mut Vec<i32>, u: i32)
    ensures
        final(v)@ == old(v)@.remove_value(u),
{
    proof {
        v@.index_of_first_ensures(u);
    }
    let n = v.len();
    let mut i: usize = 0;
    while i < n
        invariant
            n == v@.len(),
            i <= n,
            v@ == old(v)@,
            forall|j: int| 0 <= j < i ==> v@[j] != u,
        decreases n - i,
    {
        if v[i] == u {
            proof {
                v@.index_of_first_ensures(u);
                assert(v@.contains(u));
                let k = v@.index_of_first(u)->0;
                assert(k == i) by {
                    if k < i {
                        assert(v@[k] == u);
                    }
                }
            }
            v.remove(i);
            return;
        }
        i = i + 1;
    }
    proof {
        v@.index_of_first_ensures(u);
        if v@.contains(u) {
            let k = choose|k: int| 0 <= k < v@.len() && v@[k] == u;
            assert(v@[k] != u);
        }
    }
}

impl Lobby {
    /// Takes the game of `room_id` out of the lobby; when the room has none
    /// and `game_type` is `"faritany"`, makes a new Faritany game.
    fn take_or_create_game(&mut self, room_id: u128, game_type: &str) -> (r: Option<FaritanyLogique>)
        requires
            old(self).wf(),
        ensures
            final(self)@.sessions == old(self)@.sessions,
            final(self)@.rooms == old(self)@.rooms,
            old(self)@.games.contains_key(room_id) ==> r == Some(old(self)@.games[room_id])
                && final(self)@.games == old(self)@.games.remove(room_id),
            !old(self)@.games.contains_key(room_id) && game_type@ == "faritany"@ ==> (r matches Some(g)
                && fresh_game(g)) && final(self)@.games == old(self)@.games,
            !old(self)@.games.contains_key(room_id) && game_type@ != "faritany"@ ==> r is None
                && final(self)@.games == old(self)@.games,
            r matches Some(g) ==> g.ready() && g.duree_tour_secondes != 0,
            final(self).wf(),
    {
        match self.games.remove(&room_id) {
            Some(g) => {
                proof {
                    assert(old(self)@.games.contains_key(room_id));
                    assert(self@.rooms =~= old(self)@.rooms);
                }
                Some(g)
            },
            None => {
                proof {
                    assert(self@.rooms =~= old(self)@.rooms);
                    assert(self@.games =~= old(self)@.games);
                }
                if is_faritany(game_type) {
                    let g = FaritanyLogique::new(30, 30);
                    proof {
                        assert(g.grid@ =~= (GridModel {
                            cells: Map::<Point, Option<Player>>::empty(),
                            loops: Seq::<(Seq<Point>, Player)>::empty(),
                            disabled: Set::<Point>::empty(),
                            size: new_game_size(),
                        }));
                    }
                    Some(g)
                } else {
                    None
                }
            },
        }
    }

    /// `user_id` connects to `room_id`, which plays `game_type`.
    ///
    /// The user is connected and joins the room (created if needed); the
    /// room's game (created if needed, see `game_stepped`) seats the user,
    /// and its answer goes to the room; then the other connected members
    /// learn that the user joined.
    pub fn connect(&mut self, user_id: i32, pseudo: String, room_id: u128, game_type: &str) -> (r:
        Dispatch)
        requires
            old(self).wf(),
        ensures
            final(self).wf(),
            final(self)@.sessions == old(self)@.sessions.insert(user_id),
            final(self)@.rooms == old(self)@.rooms.insert(
                room_id,
                joined_members(old(self)@, room_id, user_id),
            ),
            game_stepped(
                old(self)@,
                final(self)@,
                room_id,
                game_type@,
                r.game_messages@,
                |a: FaritanyLogique, b: FaritanyLogique|
                    connect_step(a, b, user_id, pseudo, r.game_messages@),
            ),
            r.room_message matches Some(MessageWebSocket::UserJoined { user_id: u, pseudo: p })
                && u == user_id && p == pseudo,
            r.sends@ == game_sends(
                joined_members(old(self)@, room_id, user_id),
                final(self)@.sessions,
                r.game_messages@,
                r.game_messages@.len() as int,
            ) + room_sends(joined_members(old(self)@, room_id, user_id), final(self)@.sessions, user_id),
    {
        let ghost m0 = self@;
        let ghost joined = joined_members(m0, room_id, user_id);
        self.sessions.insert(user_id);
        let mut members = match self.rooms.remove(&room_id) {
            Some(v) => v,
            None => Vec::new(),
        };
        if !contains_id(&members, user_id) {
            members.push(user_id);
        }
        proof {
            assert(members@ =~= joined);
        }
        self.rooms.insert(room_id, members);
        proof {
            assert(self@.rooms =~= m0.rooms.insert(room_id, joined));
            assert(self@.games =~= m0.games);
            assert forall|rm: u128| #[trigger] self@.rooms.contains_key(rm) implies self@.rooms[rm].no_duplicates() by {
                if rm != room_id {
                    assert(m0.rooms.contains_key(rm));
                }
            }
        }
        let ghost m1 = self@;
        let taken = self.take_or_create_game(room_id, game_type);
        let game_messages = match taken {
            Some(g) => {
                let mut g = g;
                let ghost g0 = g;
                let msgs = GameLogic::handle_connect(&mut g, user_id, pseudo.clone());
                self.games.insert(room_id, g);
                proof {
                    assert(connect_step(g0, g, user_id, pseudo, msgs@));
                    assert(self@.rooms =~= m1.rooms);
                }
                msgs
            },
            None => Vec::new(),
        };
        proof {
            let step = |a: FaritanyLogique, b: FaritanyLogique|
                connect_step(a, b, user_id, pseudo, game_messages@);
            if m0.games.contains_key(room_id) {
                assert(self@.games.remove(room_id) =~= m0.games.remove(room_id));
                assert(self@.games.dom() =~= m0.games.dom());
            } else if game_type@ == "faritany"@ {
                assert(self@.games.remove(room_id) =~= m0.games);
                assert(self@.games.dom() =~= m0.games.dom().insert(room_id));
                let g0 = taken->0;
                assert(fresh_game(g0) && step(g0, self@.games[room_id]));
            } else {
                assert(self@.games =~= m0.games);
            }
            assert forall|rm: u128| #[trigger] self@.games.contains_key(rm) implies self@.games[rm].ready()
                && self@.games[rm].duree_tour_secondes != 0 by {
                if rm != room_id {
                    assert(m0.games.contains_key(rm));
                }
            }
        }
        let mut sends = self.broadcast_messages(room_id, &game_messages);
        match self.rooms.get(&room_id) {
            Some(members) => {
                push_filtered(
                    &mut sends,
                    members,
                    members,
                    &self.sessions,
                    user_id,
                    2,
                    Payload::Room,
                    Ghost(others_filter(user_id, self.sessions@)),
                );
            },
            None => {},
        }
        Dispatch {
            game_messages,
            room_message: Some(MessageWebSocket::UserJoined { user_id, pseudo }),
            sends,
        }
    }

    /// A message `msg` of `user_id` in `room_id`, which plays `game_type`.
    ///
    /// The room's game (created if needed, see `game_stepped`) handles the
    /// message, and its answer goes to the room.
    pub fn client_message(&mut self, user_id: i32, room_id: u128, game_type: &str, msg: &MessageClient) -> (r:
        Dispatch)
        requires
            old(self).wf(),
        ensures
            final(self).wf(),
            final(self)@.sessions == old(self)@.sessions,
            final(self)@.rooms == old(self)@.rooms,
            game_stepped(
                old(self)@,
                final(self)@,
                room_id,
                game_type@,
                r.game_messages@,
                |a: FaritanyLogique, b: FaritanyLogique|
                    client_step(a, b, *msg, user_id, r.game_messages@),
            ),
            r.room_message is None,
            old(self)@.rooms.contains_key(room_id) ==> r.sends@ == game_sends(
                old(self)@.rooms[room_id],
                old(self)@.sessions,
                r.game_messages@,
                r.game_messages@.len() as int,
            ),
            !old(self)@.rooms.contains_key(room_id) ==> r.sends@.len() == 0,
    {
        let ghost m0 = self@;
        let taken = self.take_or_create_game(room_id, game_type);
        let game_messages = match taken {
            Some(g) => {
                let mut g = g;
                let ghost g0 = g;
                let msgs = GameLogic::handle_client_message(&mut g, msg, &user_id);
                self.games.insert(room_id, g);
                proof {
                    assert(client_step(g0, g, *msg, user_id, msgs@));
                    assert(self@.rooms =~= m0.rooms);
                }
                msgs
            },
            None => Vec::new(),
        };
        proof {
            let step = |a: FaritanyLogique, b: FaritanyLogique|
                client_step(a, b, *msg, user_id, game_messages@);
            if m0.games.contains_key(room_id) {
                assert(self@.games.remove(room_id) =~= m0.games.remove(room_id));
                assert(self@.games.dom() =~= m0.games.dom());
            } else if game_type@ == "faritany"@ {
                assert(self@.games.remove(room_id) =~= m0.games);
                assert(self@.games.dom() =~= m0.games.dom().insert(room_id));
                let g0 = taken->0;
                assert(fresh_game(g0) && step(g0, self@.games[room_id]));
            } else {
                assert(self@.games =~= m0.games);
            }
            assert forall|rm: u128| #[trigger] self@.games.contains_key(rm) implies self@.games[rm].ready()
                && self@.games[rm].duree_tour_secondes != 0 by {
                if rm != room_id {
                    assert(m0.games.contains_key(rm));
                }
            }
        }
        let sends = self.broadcast_messages(room_id, &game_messages);
        Dispatch { game_messages, room_message: None, sends }
    }

    /// `user_id` disconnects from `room_id`.
    ///
    /// Nothing happens unless the user is connected. Then the user is
    /// disconnected and the other connected members of the room learn that
    /// the user left. When someone else is still in the room, the user leaves
    /// it and its game, if any, unseats the user and its answer goes to the
    /// room; otherwise the room and its game are closed.
    pub fn disconnect(&mut self, user_id: i32, pseudo: String, room_id: u128) -> (r: Dispatch)
        requires
            old(self).wf(),
            old(self)@.sessions.contains(user_id) ==> old(self)@.rooms.contains_key(room_id),
        ensures
            final(self).wf(),
            !old(self)@.sessions.contains(user_id) ==> final(self)@ == old(self)@ && r.room_message is None
                && r.game_messages@.len() == 0 && r.sends@.len() == 0,
            old(self)@.sessions.contains(user_id) ==> ({
                let s1 = old(self)@.sessions.remove(user_id);
                let members = old(self)@.rooms[room_id];
                &&& final(self)@.sessions == s1
                &&& r.room_message matches Some(
                    MessageWebSocket::UserDisconnected { user_id: u, pseudo: p },
                ) && u == user_id && p == pseudo
                &&& if members.len() > 1 {
                    let rest = members.remove_value(user_id);
                    &&& final(self)@.rooms == old(self)@.rooms.insert(room_id, rest)
                    &&& if old(self)@.games.contains_key(room_id) {
                        &&& final(self)@.games.dom() == old(self)@.games.dom()
                        &&& final(self)@.games.remove(room_id) == old(self)@.games.remove(room_id)
                        &&& deconnect_step(
                            old(self)@.games[room_id],
                            final(self)@.games[room_id],
                            user_id,
                            r.game_messages@,
                        )
                    } else {
                        final(self)@.games == old(self)@.games && r.game_messages@.len() == 0
                    }
                    &&& r.sends@ == room_sends(members, s1, user_id) + game_sends(
                        rest,
                        s1,
                        r.game_messages@,
                        r.game_messages@.len() as int,
                    )
                } else {
                    &&& final(self)@.rooms == old(self)@.rooms.remove(room_id)
                    &&& final(self)@.games == old(self)@.games.remove(room_id)
                    &&& r.game_messages@.len() == 0
                    &&& r.sends@ == room_sends(members, s1, user_id)
                }
            }),
    {
        let ghost m0 = self@;
        if !self.sessions.remove(&user_id) {
            proof {
                assert(self@.sessions =~= m0.sessions);
                assert(self@.rooms =~= m0.rooms);
            }
            return Dispatch { game_messages: Vec::new(), room_message: None, sends: Vec::new() };
        }
        let ghost s1 = self@.sessions;
        let room_message = MessageWebSocket::UserDisconnected { user_id, pseudo: pseudo.clone() };
        let mut members = match self.rooms.remove(&room_id) {
            Some(v) => v,
            None => Vec::new(),
        };
        proof {
            assert(members@ == m0.rooms[room_id]);
            assert(self@.games =~= m0.games);
        }
        let mut sends: Vec<(i32, Payload)> = Vec::new();
        push_filtered(
            &mut sends,
            &members,
            &members,
            &self.sessions,
            user_id,
            2,
            Payload::Room,
            Ghost(others_filter(user_id, self.sessions@)),
        );
        assert(sends@ =~= room_sends(m0.rooms[room_id], s1, user_id));
        if members.len() > 1 {
            remove_id(&mut members, user_id);
            let ghost rest = members@;
            proof {
                assert forall|a: int, b: int| 0 <= a < b < rest.len() implies rest[a] != rest[b] by {
                    let old_m = m0.rooms[room_id];
                    old_m.index_of_first_ensures(user_id);
                    match old_m.index_of_first(user_id) {
                        Some(k) => {
                            let a2 = if a < k { a } else { a + 1 };
                            let b2 = if b < k { b } else { b + 1 };
                            assert(rest[a] == old_m[a2]);
                            assert(rest[b] == old_m[b2]);
                        },
                        None => {},
                    }
                }
            }
            self.rooms.insert(room_id, members);
            proof {
                assert(self@.rooms =~= m0.rooms.insert(room_id, rest));
                assert forall|rm: u128| #[trigger] self@.rooms.contains_key(rm) implies self@.rooms[rm].no_duplicates() by {
                    if rm != room_id {
                        assert(m0.rooms.contains_key(rm));
                    }
                }
            }
            let ghost m1 = self@;
            let game_messages = match self.games.remove(&room_id) {
                Some(g) => {
                    let mut g = g;
                    let ghost g0 = g;
                    proof {
                        assert(m0.games.contains_key(room_id));
                    }
                    let msgs = GameLogic::handle_deconnect(&mut g, user_id, pseudo);
                    self.games.insert(room_id, g);
                    proof {
                        assert(self@.rooms =~= m1.rooms);
                        assert(self@.games.remove(room_id) =~= m0.games.remove(room_id));
                        assert(self@.games.dom() =~= m0.games.dom());
                    }
                    msgs
                },
                None => {
                    proof {
                        assert(self@.rooms =~= m1.rooms);
                        assert(self@.games =~= m0.games);
                    }
                    Vec::new()
                },
            };
            proof {
                assert forall|rm: u128| #[trigger] self@.games.contains_key(rm) implies self@.games[rm].ready()
                && self@.games[rm].duree_tour_secondes != 0 by {
                    if rm != room_id {
                        assert(m0.games.contains_key(rm));
                    }
                }
            }
            let more = self.broadcast_messages(room_id, &game_messages);
            let ghost before = sends@;
            let mut more = more;
            sends.append(&mut more);
            return Dispatch { game_messages, room_message: Some(room_message), sends };
        }
        self.games.remove(&room_id);
        proof {
            assert(self@.rooms =~= m0.rooms.remove(room_id));
            assert(self@.games =~= m0.games.remove(room_id));
            assert forall|rm: u128| #[trigger] self@.rooms.contains_key(rm) implies self@.rooms[rm].no_duplicates() by {
                assert(m0.rooms.contains_key(rm));
            }
            assert forall|rm: u128| #[trigger] self@.games.contains_key(rm) implies self@.games[rm].ready()
                && self@.games[rm].duree_tour_secondes != 0 by {
                assert(m0.games.contains_key(rm));
            }
        }
        Dispatch { game_messages: Vec::new(), room_message: Some(room_message), sends }
    }
}

// ---------------------------------------------------------------------------
// Laws of the lobby
// ---------------------------------------------------------------------------

/// Every delivery of a game's messages goes to a connected member of the
/// room, and carries one of those messages.
pub proof fn lemma_game_sends_reach_members(
    members: Seq<i32>,
    sessions: Set<i32>,
    msgs: Seq<(VecKey, GameMessage)>,
    k: int,
)
    requires
        0 <= k <= msgs.len(),
    ensures
        forall|j: int|
            0 <= j < game_sends(members, sessions, msgs, k).len() ==> {
                let d = #[trigger] game_sends(members, sessions, msgs, k)[j];
                &&& members.contains(d.0)
                &&& sessions.contains(d.0)
                &&& d.1 matches Payload::Game(i) && i < k
            },
    decreases k,
{
    if k > 0 {
        lemma_game_sends_reach_members(members, sessions, msgs, k - 1);
        let prefix = game_sends(members, sessions, msgs, k - 1);
        let keys = msgs[k - 1].0.0@;
        let t = game_targets(members, sessions, keys);
        let all = game_sends(members, sessions, msgs, k);
        assert forall|j: int| 0 <= j < all.len() implies {
            let d = #[trigger] all[j];
            &&& members.contains(d.0)
            &&& sessions.contains(d.0)
            &&& d.1 matches Payload::Game(i) && i < k
        } by {
            if j < prefix.len() {
                assert(all[j] == prefix[j]);
            } else {
                let m = j - prefix.len();
                assert(all[j] == t.map_values(tag(Payload::Game((k - 1) as usize)))[m]);
                let u = t[m];
                if keys.len() == 0 {
                    members.lemma_filter_pred(connected_filter(sessions), m);
                    assert(members.filter(connected_filter(sessions)).contains(u));
                    members.lemma_filter_contains_rev(connected_filter(sessions), u);
                } else {
                    keys.lemma_filter_pred(member_filter(members, sessions), m);
                }
            }
        }
    }
}

/// The room's notice about `user` goes to every other connected member, and
/// never to `user`.
pub proof fn lemma_room_sends_reach_others(members: Seq<i32>, sessions: Set<i32>, user: i32)
    ensures
        forall|j: int|
            0 <= j < room_sends(members, sessions, user).len() ==> {
                let d = #[trigger] room_sends(members, sessions, user)[j];
                &&& d.0 != user
                &&& members.contains(d.0)
                &&& sessions.contains(d.0)
                &&& d.1 == Payload::Room
            },
        forall|u: i32|
            #[trigger] members.contains(u) && u != user && sessions.contains(u) ==> exists|j: int|
                0 <= j < room_sends(members, sessions, user).len() && room_sends(
                    members,
                    sessions,
                    user,
                )[j].0 == u,
{
    let f = members.filter(others_filter(user, sessions));
    assert forall|j: int| 0 <= j < room_sends(members, sessions, user).len() implies {
        let d = #[trigger] room_sends(members, sessions, user)[j];
        &&& d.0 != user
        &&& members.contains(d.0)
        &&& sessions.contains(d.0)
        &&& d.1 == Payload::Room
    } by {
        members.lemma_filter_pred(others_filter(user, sessions), j);
        assert(f.contains(f[j]));
        members.lemma_filter_contains_rev(others_filter(user, sessions), f[j]);
    }
    assert forall|u: i32|
        #[trigger] members.contains(u) && u != user && sessions.contains(u) implies exists|j: int|
            0 <= j < room_sends(members, sessions, user).len() && room_sends(members, sessions, user)[j].0
                == u by {
        let i = choose|i: int| 0 <= i < members.len() && members[i] == u;
        members.lemma_filter_contains(others_filter(user, sessions), i);
        let j = choose|j: int| 0 <= j < f.len() && f[j] == u;
        assert(room_sends(members, sessions, user)[j].0 == u);
    }
}

} // verus!
