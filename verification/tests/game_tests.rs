use faritany::clock::{seconds_between, trunc_div_i128, Moment};
use faritany::faritany_logique::FaritanyLogique;
use faritany::game_logic::{GameLogic, GameMessage};
use faritany::message::{MessageClient, MessageServeurFaritany};
use faritany::player::Player;
use faritany::point::Point;

fn at(secs: i64) -> Moment {
    Moment { secs, nanos: 0 }
}

fn place(x: i32, y: i32) -> MessageClient {
    MessageClient::PlaceStone { point: Point::new(x, y) }
}

fn seated_game() -> FaritanyLogique {
    let mut g = FaritanyLogique::new(30, 30);
    g.connect_user(1, "alice".to_string());
    g.connect_user(2, "bob".to_string());
    g
}

#[test]
fn game_new_starts_with_player_one() {
    let g = FaritanyLogique::new(20, 45);
    assert_eq!(g.joueur_courant, Player::PLAYER_1);
    assert!(g.joueurs.is_empty());
    assert!(g.tour_commence_at.is_none());
    assert_eq!(g.duree_tour_secondes, 45);
    assert!(g.get_role(&1).is_none());
}

#[test]
fn game_seats_two_players_then_refuses() {
    let mut g = FaritanyLogique::new(30, 30);
    match g.connect_user(7, "alice".to_string()) {
        Some(MessageServeurFaritany::AttributionJoueur { pseudo, localPlayer, currentPlayer }) => {
            assert_eq!(pseudo, "alice");
            assert_eq!(localPlayer, "PLAYER_1");
            assert!(currentPlayer);
        }
        _ => panic!("first user is seated"),
    }
    match g.connect_user(8, "bob".to_string()) {
        Some(MessageServeurFaritany::AttributionJoueur { localPlayer, currentPlayer, .. }) => {
            assert_eq!(localPlayer, "PLAYER_2");
            assert!(!currentPlayer);
        }
        _ => panic!("second user is seated"),
    }
    assert!(g.connect_user(9, "carol".to_string()).is_none());
    assert_eq!(g.joueurs.len(), 2);
    assert_eq!(g.get_role(&8), Some(&Player::PLAYER_2));
}

#[test]
fn game_reconnect_gets_the_board() {
    let mut g = seated_game();
    g.play_at(&place(3, 4), &1, at(100), at(100));
    match g.connect_user(1, "alice".to_string()) {
        Some(MessageServeurFaritany::ListePointsFaritany { points }) => {
            assert_eq!(points, vec![("3,4".to_string(), Some(Player::PLAYER_1))]);
        }
        _ => panic!("a seated user gets the board"),
    }
    assert_eq!(g.joueurs.len(), 2);
}

#[test]
fn game_turns_alternate() {
    let mut g = seated_game();
    match g.play_at(&place(5, 5), &1, at(100), at(101)) {
        Some(MessageServeurFaritany::PlacementPoint { point, player }) => {
            assert_eq!(point, Point::new(5, 5));
            assert_eq!(player, "PLAYER_1");
        }
        _ => panic!("player one moves first"),
    }
    assert_eq!(g.joueur_courant, Player::PLAYER_2);
    assert_eq!(g.tour_commence_at, Some(at(101)));
    // player one may not move twice
    assert!(g.play_at(&place(6, 6), &1, at(102), at(102)).is_none());
    assert!(g.grid.is_cell_empty(&Point::new(6, 6)));
    // player two moves
    assert!(g.play_at(&place(6, 6), &2, at(103), at(103)).is_some());
    assert_eq!(g.joueur_courant, Player::PLAYER_1);
}

#[test]
fn game_refuses_an_occupied_cell() {
    let mut g = seated_game();
    assert!(g.play_at(&place(5, 5), &1, at(100), at(100)).is_some());
    assert!(g.play_at(&place(5, 5), &2, at(101), at(101)).is_none());
    assert_eq!(g.joueur_courant, Player::PLAYER_2);
}

#[test]
fn game_ignores_unseated_users() {
    let mut g = seated_game();
    assert!(g.play_at(&place(1, 1), &42, at(100), at(100)).is_none());
    assert!(g.grid.is_cell_empty(&Point::new(1, 1)));
    assert!(g.tour_commence_at.is_none());
}

#[test]
fn game_timer_starts_on_first_check() {
    let mut g = seated_game();
    assert!(g.verifier_tour_at(Player::PLAYER_2, at(50)));
    assert_eq!(g.tour_commence_at, Some(at(50)));
    assert_eq!(g.joueur_courant, Player::PLAYER_1);
}

#[test]
fn game_timer_hands_over_an_overdue_turn() {
    let mut g = seated_game();
    g.verifier_tour_at(Player::PLAYER_1, at(0));
    // within the first period nothing changes
    assert!(g.verifier_tour_at(Player::PLAYER_2, at(29)));
    assert_eq!(g.joueur_courant, Player::PLAYER_1);
    // in the second period the waiting player takes the turn
    assert!(g.verifier_tour_at(Player::PLAYER_2, at(31)));
    assert_eq!(g.joueur_courant, Player::PLAYER_2);
}

#[test]
fn game_timer_stops_the_late_player() {
    let mut g = seated_game();
    g.verifier_tour_at(Player::PLAYER_1, at(0));
    assert!(!g.verifier_tour_at(Player::PLAYER_1, at(45)));
    assert_eq!(g.joueur_courant, Player::PLAYER_1);
    // in the third period the turn is open again
    assert!(g.verifier_tour_at(Player::PLAYER_1, at(61)));
}

#[test]
fn game_timer_rounds_towards_zero() {
    let mut g = seated_game();
    g.verifier_tour_at(Player::PLAYER_1, Moment { secs: 10, nanos: 500_000_000 });
    // 29.9 seconds later: no whole period yet
    assert!(g.verifier_tour_at(Player::PLAYER_2, Moment { secs: 40, nanos: 400_000_000 }));
    assert_eq!(g.joueur_courant, Player::PLAYER_1);
    // a clock that went back counts a negative period, which is not odd-positive
    assert!(g.verifier_tour_at(Player::PLAYER_2, at(-60)));
    assert_eq!(g.joueur_courant, Player::PLAYER_1);
}

#[test]
fn game_disconnect_frees_the_seat() {
    let mut g = seated_game();
    let text = g.disconnect_user(2, "bob".to_string());
    assert_eq!(text, Some("2 s'est déconnecté.".to_string()));
    assert_eq!(g.joueurs.len(), 1);
    match g.connect_user(3, "carol".to_string()) {
        Some(MessageServeurFaritany::AttributionJoueur { localPlayer, .. }) => {
            assert_eq!(localPlayer, "PLAYER_2");
        }
        _ => panic!("the free seat is given"),
    }
}

#[test]
fn game_negative_user_id_text() {
    let mut g = FaritanyLogique::new(30, 30);
    assert_eq!(g.disconnect_user(-15, String::new()), Some("-15 s'est déconnecté.".to_string()));
}

#[test]
fn game_logic_trait_answers_the_room() {
    let mut g = FaritanyLogique::new(30, 30);
    let out = GameLogic::handle_connect(&mut g, 1, "alice".to_string());
    assert_eq!(out.len(), 1);
    assert!(out[0].0 .0.is_empty());
    assert!(matches!(
        out[0].1,
        GameMessage::Faritany(MessageServeurFaritany::AttributionJoueur { .. })
    ));
    let out = GameLogic::handle_client_message(&mut g, &place(0, 0), &1);
    assert_eq!(out.len(), 1);
    let out = GameLogic::handle_client_message(&mut g, &place(1, 0), &1);
    assert!(out.is_empty());
    let out = GameLogic::handle_deconnect(&mut g, 1, "alice".to_string());
    match &out[0].1 {
        GameMessage::Text(t) => assert_eq!(t, "1 s'est déconnecté."),
        _ => panic!("a departure is announced as text"),
    }
}

#[test]
fn game_live_clock_placement() {
    let mut g = seated_game();
    let out = g.place_from_client(&place(2, 2), &1);
    assert!(out.is_some());
    assert_eq!(g.joueur_courant, Player::PLAYER_2);
    assert!(g.tour_commence_at.is_some());
}

#[test]
fn clock_whole_seconds_between() {
    assert_eq!(seconds_between(at(10), at(15)), 5);
    assert_eq!(seconds_between(Moment { secs: 10, nanos: 900_000_000 }, Moment { secs: 12, nanos: 100_000_000 }), 1);
    assert_eq!(seconds_between(at(15), Moment { secs: 10, nanos: 500_000_000 }), -4);
    assert_eq!(trunc_div_i128(-7, 2), -3);
    assert_eq!(trunc_div_i128(7, -2), -3);
    assert_eq!(trunc_div_i128(-7, -2), 3);
}
