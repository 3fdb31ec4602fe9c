use ibex::geometry::Position;
use ibex::movementsystem::{count_wasted_moves, issued_move_wasted};
use screeps::{RoomCoordinate, RoomName};

fn pos(x: u8, y: u8) -> Position {
    let p = screeps::Position::new(
        RoomCoordinate::new(x).unwrap(),
        RoomCoordinate::new(y).unwrap(),
        "W5N5".parse::<RoomName>().unwrap(),
    );
    Position::from_world_coords(p.world_x(), p.world_y())
}

#[test]
fn issued_then_moved_is_not_wasted() {
    assert!(!issued_move_wasted(pos(10, 10), Some((pos(11, 10), 0))));
    assert!(!issued_move_wasted(pos(10, 10), Some((pos(11, 11), 4))));
}

#[test]
fn issued_then_blocked_unfatigued_is_wasted() {
    assert!(issued_move_wasted(pos(10, 10), Some((pos(10, 10), 0))));
}

#[test]
fn issued_then_fatigued_is_not_wasted() {
    assert!(!issued_move_wasted(pos(10, 10), Some((pos(10, 10), 6))));
}

#[test]
fn issued_then_dead_is_not_counted() {
    assert!(!issued_move_wasted(pos(10, 10), None));
}

#[test]
fn count_folds_only_wasted_records() {
    assert_eq!(count_wasted_moves(&[]), 0);
    let records = vec![
        (pos(10, 10), Some((pos(11, 10), 0))),
        (pos(20, 20), Some((pos(20, 20), 0))),
        (pos(30, 30), Some((pos(30, 30), 8))),
        (pos(40, 40), None),
        (pos(5, 5), Some((pos(5, 5), 0))),
    ];
    assert_eq!(count_wasted_moves(&records), 2);
}
