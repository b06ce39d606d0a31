use faritany::grid::Grid;
use faritany::player::Player;
use faritany::point::Point;

fn p(x: i32, y: i32) -> Point {
    Point::new(x, y)
}

#[test]
fn grid_new_is_empty() {
    let g = Grid::new(30);
    assert!(g.is_cell_empty(&p(0, 0)));
    assert_eq!(g.get_player_at(&p(5, 5)), None);
    assert!(g.get_Cell().is_empty());
}

#[test]
fn grid_single_stone_reports_nothing() {
    let mut g = Grid::new(30);
    let r = g.place_stone(p(4, 4), Player::PLAYER_1);
    assert!(r.is_none());
    assert!(!g.is_cell_empty(&p(4, 4)));
    assert_eq!(g.get_player_at(&p(4, 4)), Some(Player::PLAYER_1));
    assert!(g.is_cell_empty(&p(4, 5)));
}

#[test]
fn grid_stone_outside_the_board_is_kept() {
    let mut g = Grid::new(5);
    assert!(g.place_stone(p(-3, 100), Player::PLAYER_2).is_none());
    assert_eq!(g.get_player_at(&p(-3, 100)), Some(Player::PLAYER_2));
}

#[test]
fn grid_diamond_captures_the_stone_inside() {
    let mut g = Grid::new(30);
    assert!(g.place_stone(p(2, 2), Player::PLAYER_2).is_none());
    assert!(g.place_stone(p(2, 1), Player::PLAYER_1).is_none());
    assert!(g.place_stone(p(3, 2), Player::PLAYER_1).is_none());
    assert!(g.place_stone(p(2, 3), Player::PLAYER_1).is_none());
    let r = g.place_stone(p(1, 2), Player::PLAYER_1).expect("the diamond is closed");
    assert_eq!(r.enclosed_points, 1);
    assert!(!r.is_closer);
    assert_eq!(r.closed_loop, vec![p(2, 1), p(3, 2), p(2, 3), p(1, 2)]);
    // the captured stone stays on its cell
    assert_eq!(g.get_player_at(&p(2, 2)), Some(Player::PLAYER_2));
}

#[test]
fn grid_captured_stone_is_not_captured_twice() {
    let mut g = Grid::new(30);
    g.place_stone(p(2, 2), Player::PLAYER_2);
    g.place_stone(p(2, 1), Player::PLAYER_1);
    g.place_stone(p(3, 2), Player::PLAYER_1);
    g.place_stone(p(2, 3), Player::PLAYER_1);
    assert!(g.place_stone(p(1, 2), Player::PLAYER_1).is_some());
    // a stone next to the loop that closes no new loop captures nothing
    assert!(g.place_stone(p(0, 0), Player::PLAYER_1).is_none());
}

#[test]
fn grid_empty_diamond_is_recorded_then_broken_into() {
    let mut g = Grid::new(30);
    assert!(g.place_stone(p(2, 1), Player::PLAYER_1).is_none());
    assert!(g.place_stone(p(3, 2), Player::PLAYER_1).is_none());
    assert!(g.place_stone(p(2, 3), Player::PLAYER_1).is_none());
    // closing a loop around an empty cell captures nothing
    assert!(g.place_stone(p(1, 2), Player::PLAYER_1).is_none());
    assert!(g.is_cell_empty(&p(2, 2)));
    // the opponent's stone inside the recorded polygon is captured by its owner
    let r = g.place_stone(p(2, 2), Player::PLAYER_2).expect("the polygon closes on the stone");
    assert!(r.is_closer);
    assert_eq!(r.enclosed_points, 1);
    assert_eq!(r.closed_loop, vec![p(2, 1), p(3, 2), p(2, 3), p(1, 2)]);
}

#[test]
fn grid_capture_neutralises_empty_cells_inside() {
    // a square ring of player 1 around a 2 by 2 interior holding one stone of player 2
    let ring = [
        p(1, 0), p(2, 0),
        p(3, 1), p(3, 2),
        p(2, 3), p(1, 3),
        p(0, 2), p(0, 1),
    ];
    let mut g = Grid::new(30);
    assert!(g.place_stone(p(1, 1), Player::PLAYER_2).is_none());
    let mut last = None;
    for q in ring.iter() {
        last = g.place_stone(*q, Player::PLAYER_1);
    }
    let r = last.expect("the ring is closed by its last stone");
    assert_eq!(r.enclosed_points, 1);
    assert!(!r.is_closer);
    // the empty cells inside are now occupied (neutral)
    assert!(!g.is_cell_empty(&p(2, 1)));
    assert!(!g.is_cell_empty(&p(1, 2)));
    assert!(!g.is_cell_empty(&p(2, 2)));
    assert_eq!(g.get_player_at(&p(2, 2)), None);
    assert_eq!(g.get_player_at(&p(1, 1)), Some(Player::PLAYER_2));
}

#[test]
fn grid_open_chain_closes_nothing() {
    let mut g = Grid::new(30);
    for x in 0..6 {
        assert!(g.place_stone(p(x, 3), Player::PLAYER_1).is_none());
    }
}

#[test]
fn grid_cells_listed_by_key() {
    let mut g = Grid::new(30);
    g.place_stone(p(1, 2), Player::PLAYER_1);
    g.place_stone(p(3, 4), Player::PLAYER_2);
    let cells = g.get_Cell();
    assert_eq!(
        cells,
        vec![
            ("1,2".to_string(), Some(Player::PLAYER_1)),
            ("3,4".to_string(), Some(Player::PLAYER_2)),
        ]
    );
}

#[test]
fn grid_stone_at_the_edge_of_i32() {
    let mut g = Grid::new(30);
    assert!(g.place_stone(p(i32::MAX, i32::MIN), Player::PLAYER_1).is_none());
    assert_eq!(g.get_player_at(&p(i32::MAX, i32::MIN)), Some(Player::PLAYER_1));
}

#[test]
fn grid_ownerless_cells_only_after_a_capture() {
    // the empty ring closes nothing: no cell is occupied without an owner
    let ring = [
        p(1, 0), p(2, 0),
        p(3, 1), p(3, 2),
        p(2, 3), p(1, 3),
        p(0, 2), p(0, 1),
    ];
    let mut g = Grid::new(30);
    for q in ring.iter() {
        let r = g.place_stone(*q, Player::PLAYER_1);
        assert!(r.map_or(true, |res| res.enclosed_points == 0));
    }
    for x in 0..5 {
        for y in 0..5 {
            let q = p(x, y);
            if g.is_cell_empty(&q) {
                assert_eq!(g.get_player_at(&q), None);
            } else {
                assert!(g.get_player_at(&q).is_some());
            }
        }
    }
}
