use ibex::geometry::Position;
use ibex::value::{haul_move_bid, quantized_haul_w, W_BID_MAX, W_BID_MIN};
use screeps::{RoomCoordinate, RoomName};

fn pos(x: u8, y: u8) -> Position {
    let p = screeps::Position::new(
        RoomCoordinate::new(x).unwrap(),
        RoomCoordinate::new(y).unwrap(),
        "W5N5".parse::<RoomName>().unwrap(),
    );
    Position::from_world_coords(p.world_x(), p.world_y())
}

#[test]
fn bid_is_energy_over_round_trip_in_milli_e_t() {
    assert_eq!(quantized_haul_w(500, pos(10, 25), pos(20, 25)), 25_000);
    assert_eq!(quantized_haul_w(500, pos(10, 15), pos(20, 25)), 25_000);
}

#[test]
fn loaded_and_near_outrank_empty_and_far() {
    let far = quantized_haul_w(500, pos(1, 25), pos(45, 25));
    let near = quantized_haul_w(500, pos(40, 25), pos(45, 25));
    assert!(near > far);
    let light = quantized_haul_w(100, pos(10, 25), pos(20, 25));
    let heavy = quantized_haul_w(800, pos(10, 25), pos(20, 25));
    assert!(heavy > light);
}

#[test]
fn clamps_stay_strictly_inside_the_low_normal_band() {
    assert_eq!(quantized_haul_w(0, pos(10, 25), pos(20, 25)), W_BID_MIN);
    assert_eq!(quantized_haul_w(2500, pos(10, 25), pos(11, 25)), W_BID_MAX);
    // The movement lane's anchors: Low = 0, Normal = 1_000_000.
    assert!(W_BID_MIN > 0);
    assert!(W_BID_MAX < 1_000_000);
}

#[test]
fn zero_distance_floors_at_one() {
    assert_eq!(quantized_haul_w(100, pos(10, 25), pos(10, 25)), 50_000);
}

#[test]
fn cross_room_legs_price_by_world_distance() {
    let a = screeps::Position::new(RoomCoordinate::new(45).unwrap(), RoomCoordinate::new(25).unwrap(), "W5N5".parse::<RoomName>().unwrap());
    let b = screeps::Position::new(RoomCoordinate::new(5).unwrap(), RoomCoordinate::new(25).unwrap(), "W4N5".parse::<RoomName>().unwrap());
    let a = Position::from_world_coords(a.world_x(), a.world_y());
    let b = Position::from_world_coords(b.world_x(), b.world_y());
    assert_eq!(a.get_range_to(b), 10);
    assert_eq!(quantized_haul_w(500, a, b), 25_000);
}

#[test]
fn creep_bid_uses_cargo_when_loaded_and_capacity_when_empty() {
    assert_eq!(haul_move_bid(500, 1_000, pos(10, 25), pos(20, 25)), 25_000);
    assert_eq!(haul_move_bid(0, 1_000, pos(10, 25), pos(20, 25)), 50_000);
}
