use ibex::geometry::{room_distance, Position, RoomName};

fn room(name: &str) -> RoomName {
    RoomName::from_packed(screeps::RoomName::new(name).unwrap().packed_repr())
}

#[test]
fn room_coordinates_match_the_game_encoding() {
    for name in ["W10N10", "E0S0", "E0N0", "W0S0", "E127S127", "W127N127", "E5N5"] {
        let game = screeps::RoomName::new(name).unwrap();
        let ours = room(name);
        assert_eq!(ours.x_coord(), game.x_coord(), "{name}");
        assert_eq!(ours.y_coord(), game.y_coord(), "{name}");
        assert_eq!(ours.packed_repr(), game.packed_repr(), "{name}");
    }
}

#[test]
fn room_distance_is_chebyshev_hops() {
    assert_eq!(room_distance(room("W10N10"), room("W12N11")), 2);
    assert_eq!(room_distance(room("W10N10"), room("W10N10")), 0);
    // Crossing the E/W meridian: W0 and E0 are adjacent.
    assert_eq!(room_distance(room("W0N0"), room("E0N0")), 1);
    assert_eq!(room_distance(room("W127N127"), room("E127S127")), 255);
}

#[test]
fn position_range_is_chebyshev_in_world_coordinates() {
    let a = Position::from_world_coords(5, 10);
    let b = Position::from_world_coords(8, 15);
    assert_eq!(a.get_range_to(b), 5);
    assert_eq!(b.get_range_to(a), 5);
    assert_eq!(Position::from_world_coords(i32::MIN, 0).get_range_to(Position::from_world_coords(i32::MAX, 0)), u32::MAX);
}
