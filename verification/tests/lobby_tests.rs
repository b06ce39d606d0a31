use faritany::game_logic::GameMessage;
use faritany::lobby::{Lobby, Payload};
use faritany::message::{MessageClient, MessageServeurFaritany, MessageWebSocket};
use faritany::point::Point;

const ROOM: u128 = 0x1234;

#[test]
fn lobby_first_connect_creates_room_and_game() {
    let mut lobby = Lobby::new();
    let d = lobby.connect(1, "alice".to_string(), ROOM, "faritany");
    assert_eq!(d.game_messages.len(), 1);
    assert!(matches!(
        d.game_messages[0].1,
        GameMessage::Faritany(MessageServeurFaritany::AttributionJoueur { .. })
    ));
    // the seat goes to the whole room, which is alice alone; nobody else hears of her arrival
    assert_eq!(d.sends, vec![(1, Payload::Game(0))]);
    match d.room_message {
        Some(MessageWebSocket::UserJoined { user_id, pseudo }) => {
            assert_eq!(user_id, 1);
            assert_eq!(pseudo, "alice");
        }
        _ => panic!("a join is announced"),
    }
}

#[test]
fn lobby_second_connect_notifies_the_first() {
    let mut lobby = Lobby::new();
    lobby.connect(1, "alice".to_string(), ROOM, "faritany");
    let d = lobby.connect(2, "bob".to_string(), ROOM, "faritany");
    assert_eq!(
        d.sends,
        vec![(1, Payload::Game(0)), (2, Payload::Game(0)), (1, Payload::Room)]
    );
}

#[test]
fn lobby_unknown_game_type_has_no_game() {
    let mut lobby = Lobby::new();
    let d = lobby.connect(1, "alice".to_string(), ROOM, "chess");
    assert!(d.game_messages.is_empty());
    assert!(d.sends.is_empty());
    let d = lobby.client_message(1, ROOM, "chess", &MessageClient::PlaceStone { point: Point::new(0, 0) });
    assert!(d.game_messages.is_empty());
    assert!(d.sends.is_empty());
    assert!(d.room_message.is_none());
}

#[test]
fn lobby_move_goes_to_the_room() {
    let mut lobby = Lobby::new();
    lobby.connect(1, "alice".to_string(), ROOM, "faritany");
    lobby.connect(2, "bob".to_string(), ROOM, "faritany");
    let d = lobby.client_message(1, ROOM, "faritany", &MessageClient::PlaceStone { point: Point::new(3, 3) });
    assert_eq!(d.sends, vec![(1, Payload::Game(0)), (2, Payload::Game(0))]);
    assert!(matches!(
        d.game_messages[0].1,
        GameMessage::Faritany(MessageServeurFaritany::PlacementPoint { .. })
    ));
    // bob may not play on the same cell
    let d = lobby.client_message(2, ROOM, "faritany", &MessageClient::PlaceStone { point: Point::new(3, 3) });
    assert!(d.sends.is_empty());
}

#[test]
fn lobby_message_to_an_unknown_room_reaches_nobody() {
    let mut lobby = Lobby::new();
    lobby.connect(1, "alice".to_string(), ROOM, "faritany");
    let d = lobby.client_message(1, 99, "faritany", &MessageClient::PlaceStone { point: Point::new(1, 1) });
    assert!(d.sends.is_empty());
}

#[test]
fn lobby_disconnect_tells_the_others() {
    let mut lobby = Lobby::new();
    lobby.connect(1, "alice".to_string(), ROOM, "faritany");
    lobby.connect(2, "bob".to_string(), ROOM, "faritany");
    let d = lobby.disconnect(2, "bob".to_string(), ROOM);
    match d.room_message {
        Some(MessageWebSocket::UserDisconnected { user_id, pseudo }) => {
            assert_eq!(user_id, 2);
            assert_eq!(pseudo, "bob");
        }
        _ => panic!("a departure is announced"),
    }
    // alice hears of it, then the game's text goes to the room that is left
    assert_eq!(d.sends, vec![(1, Payload::Room), (1, Payload::Game(0))]);
    match &d.game_messages[0].1 {
        GameMessage::Text(t) => assert_eq!(t, "2 s'est déconnecté."),
        _ => panic!("the game says who left"),
    }
    // a second disconnect of the same user does nothing
    let d = lobby.disconnect(2, "bob".to_string(), ROOM);
    assert!(d.room_message.is_none());
    assert!(d.sends.is_empty());
}

#[test]
fn lobby_last_member_closes_the_room() {
    let mut lobby = Lobby::new();
    lobby.connect(1, "alice".to_string(), ROOM, "faritany");
    let d = lobby.disconnect(1, "alice".to_string(), ROOM);
    assert!(d.sends.is_empty());
    assert!(d.game_messages.is_empty());
    // the room starts afresh: the next user gets the first seat
    let d = lobby.connect(3, "carol".to_string(), ROOM, "faritany");
    match &d.game_messages[0].1 {
        GameMessage::Faritany(MessageServeurFaritany::AttributionJoueur { localPlayer, .. }) => {
            assert_eq!(localPlayer, "PLAYER_1");
        }
        _ => panic!("a new game seats the user"),
    }
}

#[test]
fn lobby_broadcast_to_listed_members_only() {
    let mut lobby = Lobby::new();
    lobby.connect(1, "alice".to_string(), ROOM, "faritany");
    lobby.connect(2, "bob".to_string(), ROOM, "faritany");
    let msgs = vec![
        (faritany::game_logic::VecKey(vec![2, 5]), GameMessage::Text("hi".to_string())),
        (faritany::game_logic::VecKey(vec![]), GameMessage::Text("all".to_string())),
    ];
    let sends = lobby.broadcast_messages(ROOM, &msgs);
    assert_eq!(sends, vec![(2, Payload::Game(0)), (1, Payload::Game(1)), (2, Payload::Game(1))]);
    assert!(lobby.broadcast_messages(7, &msgs).is_empty());
}

#[test]
fn lobby_room_members_reached() {
    let mut lobby = Lobby::new();
    lobby.connect(1, "alice".to_string(), ROOM, "faritany");
    lobby.connect(2, "bob".to_string(), ROOM, "faritany");
    lobby.connect(3, "carol".to_string(), 77, "faritany");
    assert_eq!(lobby.send_message_room(ROOM), vec![1, 2]);
    assert!(lobby.send_message_room(5).is_empty());
    assert!(lobby.is_connected(3));
    assert!(lobby.has_room(77));
    assert!(!lobby.has_room(5));
}

#[test]
fn lobby_user_in_two_rooms_leaves_one() {
    let mut lobby = Lobby::new();
    lobby.connect(1, "alice".to_string(), ROOM, "faritany");
    lobby.connect(2, "bob".to_string(), ROOM, "faritany");
    lobby.connect(2, "bob".to_string(), 77, "faritany");
    lobby.connect(3, "carol".to_string(), 77, "faritany");
    // bob disconnects from the first room: he is no longer connected anywhere
    lobby.disconnect(2, "bob".to_string(), ROOM);
    assert!(!lobby.is_connected(2));
    // carol's room still lists bob, but nothing reaches him
    assert_eq!(lobby.send_message_room(77), vec![3]);
}
