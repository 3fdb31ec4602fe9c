use ibex::geometry::{Position, RoomName};
use ibex::repairqueue::{RemoteObjectId, RepairPriority, RepairQueue, RepairRequest};
use ibex::wall_repair::{post_wall_repairs, WallSighting};

/// E0N0: room_x 0, room_y -1.
fn test_room() -> RoomName {
    RoomName::from_packed(128 * 256 + 127)
}

fn other_room() -> RoomName {
    RoomName::from_packed(129 * 256 + 127)
}

fn tile(x: i32, y: i32) -> Position {
    Position::from_world_coords(x, -50 + y)
}

fn test_request(priority: RepairPriority, current_hits: u32, max_hits: u32, id_hex: &str) -> RepairRequest {
    let room = test_room();
    RepairRequest {
        structure_id: RemoteObjectId::new_from_components(
            u128::from_str_radix(id_hex, 16).expect("valid object id"),
            tile(25, 25),
        ),
        priority,
        current_hits,
        max_hits,
        room,
    }
}

#[test]
fn get_best_target_handles_zero_max_hits_without_panic() {
    let mut queue = RepairQueue::default();
    queue.request_repair(test_request(RepairPriority::Medium, 0, 0, "5bbcab9099d4e7f1f9fb1be1"));

    let best = queue.get_best_target(test_room(), None).expect("expected a target");
    assert_eq!(best.max_hits, 0);
}

#[test]
fn get_best_target_prefers_damaged_over_zero_max_hits() {
    let mut queue = RepairQueue::default();
    queue.request_repair(test_request(RepairPriority::Medium, 0, 0, "5bbcab9099d4e7f1f9fb1be1"));
    queue.request_repair(test_request(RepairPriority::Medium, 50, 100, "5bbcab9099d4e7f1f9fb1be2"));

    let best = queue.get_best_target(test_room(), None).expect("expected a target");
    assert_eq!(best.max_hits, 100);
}

#[test]
fn get_best_target_orders_by_priority_first() {
    let mut queue = RepairQueue::default();
    queue.request_repair(test_request(RepairPriority::Low, 1, 100, "5bbcab9099d4e7f1f9fb1be1"));
    queue.request_repair(test_request(RepairPriority::Critical, 99, 100, "5bbcab9099d4e7f1f9fb1be2"));

    let best = queue.get_best_target(test_room(), None).expect("expected a target");
    assert_eq!(best.priority, RepairPriority::Critical);
}

#[test]
fn minimum_priority_and_room_filter_requests() {
    let mut queue = RepairQueue::new();
    queue.request_repair(test_request(RepairPriority::Low, 1, 100, "1"));
    let mut elsewhere = test_request(RepairPriority::Critical, 1, 100, "2");
    elsewhere.room = other_room();
    queue.request_repair(elsewhere);
    assert!(queue.has_requests(test_room(), Some(RepairPriority::Low)));
    assert!(!queue.has_requests(test_room(), Some(RepairPriority::Medium)));
    assert_eq!(queue.get_best_target(test_room(), Some(RepairPriority::Medium)), None);
    assert_eq!(queue.get_best_target(other_room(), None).map(|r| r.structure_id.id()), Some(2));
    assert_eq!(queue.get_best_target(test_room(), None).map(|r| r.structure_id.id()), Some(1));
}

#[test]
fn equal_requests_yield_the_last_posted() {
    let mut queue = RepairQueue::new();
    queue.request_repair(test_request(RepairPriority::High, 10, 100, "1"));
    queue.request_repair(test_request(RepairPriority::High, 20, 200, "2"));
    queue.request_repair(test_request(RepairPriority::High, 90, 100, "3"));
    assert_eq!(queue.get_best_target(test_room(), None).map(|r| r.structure_id.id()), Some(2));
}

#[test]
fn best_in_range_only_looks_near_the_position() {
    let mut queue = RepairQueue::new();
    let mut far = test_request(RepairPriority::Critical, 1, 100, "1");
    far.structure_id = RemoteObjectId::new_from_components(1, tile(40, 40));
    queue.request_repair(far);
    queue.request_repair(test_request(RepairPriority::Low, 50, 100, "2"));
    let here = tile(20, 22);
    assert_eq!(
        queue.get_best_target_in_range(test_room(), here, 5, None).map(|r| r.structure_id.id()),
        Some(2)
    );
    assert_eq!(queue.get_best_target_in_range(test_room(), here, 4, None), None);
    assert_eq!(
        queue.get_best_target_in_range(test_room(), here, 20, None).map(|r| r.structure_id.pos()),
        Some(tile(40, 40))
    );
}

#[test]
fn room_requests_come_highest_priority_first_in_posting_order() {
    let mut queue = RepairQueue::new();
    queue.request_repairs(vec![
        test_request(RepairPriority::Low, 1, 100, "1"),
        test_request(RepairPriority::Critical, 1, 100, "2"),
        test_request(RepairPriority::Medium, 1, 100, "3"),
        test_request(RepairPriority::Critical, 1, 100, "4"),
    ]);
    let ids: Vec<u128> = queue.get_room_requests(test_room()).iter().map(|r| r.structure_id.id()).collect();
    assert_eq!(ids, vec![2, 4, 3, 1]);
    assert!(queue.get_room_requests(other_room()).is_empty());
    queue.clear();
    assert!(!queue.has_requests(test_room(), None));
    assert!(queue.get_room_requests(test_room()).is_empty());
}

#[test]
fn a_posted_request_is_pending_at_its_priority() {
    let mut queue = RepairQueue::new();
    let r = test_request(RepairPriority::High, 5, 10, "9");
    queue.request_repair(r);
    assert!(queue.has_requests(r.room, Some(r.priority)));
    assert_eq!(queue.get_best_target(r.room, Some(r.priority)), Some(r));
}

#[test]
fn wall_scan_posts_owned_damaged_structures() {
    let mut queue = RepairQueue::new();
    let room = test_room();
    let sighting = |id: u128, mine: bool, hits: u32| WallSighting {
        id: RemoteObjectId::new_from_components(id, tile(10, 10)),
        mine,
        hits,
        hits_max: 3_000_000,
    };
    let posted = post_wall_repairs(
        &mut queue,
        room,
        &[sighting(1, true, 50_000), sighting(2, false, 10), sighting(3, true, 3_000_000), sighting(4, true, 2_000_000)],
    );
    assert_eq!(posted, 2);
    let requests = queue.get_room_requests(room);
    assert_eq!(requests.len(), 2);
    assert_eq!((requests[0].structure_id.id(), requests[0].priority), (1, RepairPriority::Critical));
    assert_eq!((requests[1].structure_id.id(), requests[1].priority), (4, RepairPriority::Medium));
    assert_eq!(requests[1].current_hits, 2_000_000);
}
