use ibex::geometry::RoomName;
use ibex::scoutassignment::{
    best_insertion, cheapest_scout, closest_room, nearest_unseen_frontier, room_name_lt, seen_again, tour_ticks,
    update_entry_fail_counters, within_strategic_reach,
    FRONTIER_SEARCH_RADIUS, SCOUT_ENTRY_FAIL_TICKS, TICKS_PER_ROOM_HOP,
};
use std::collections::HashMap;

fn rn(name: &str) -> RoomName {
    RoomName::from_packed(screeps::RoomName::new(name).unwrap().packed_repr())
}

#[test]
fn insertion_deltas_are_chebyshev_hops() {
    // Empty tour: the delta is the direct leg from the scout.
    let (delta, pos) = best_insertion(rn("W10N10"), &[], rn("W12N11"), 10_000).unwrap();
    assert_eq!(delta, 2 * TICKS_PER_ROOM_HOP, "Chebyshev(W10N10,W12N11) = 2 hops");
    assert_eq!(pos, 0);

    // Insert W11N10 into [W12N10]: on the way — zero detour, position 0.
    let (delta, pos) = best_insertion(rn("W10N10"), &[rn("W12N10")], rn("W11N10"), 10_000).unwrap();
    assert_eq!(delta, 0, "an on-path stop costs no extra travel");
    assert_eq!(pos, 0);

    // Lifetime budget rejects an unaffordable stop.
    assert!(best_insertion(rn("W10N10"), &[], rn("W40N10"), 100).is_none());
}

#[test]
fn entry_fail_counter_accumulates_resets_and_fires() {
    let target = rn("W5N5");
    let key = target.packed_repr();
    let mut counters: HashMap<u16, u32> = HashMap::new();
    let demand = vec![target];

    // Scout tasked with the room, sitting adjacent: accumulates.
    let adjacent = vec![(rn("W5N6"), Some(target))];
    for _ in 0..(SCOUT_ENTRY_FAIL_TICKS - 1) {
        let crossed = update_entry_fail_counters(&mut counters, &demand, &adjacent);
        assert!(crossed.is_empty());
    }
    assert_eq!(counters.get(&key).copied(), Some(SCOUT_ENTRY_FAIL_TICKS - 1));

    // Any scout ENTERING the room resets the streak.
    let entered = vec![(target, Some(target))];
    update_entry_fail_counters(&mut counters, &demand, &entered);
    assert!(!counters.contains_key(&key), "entering resets the evidence");

    // Re-accumulate to the threshold: fires exactly once.
    for _ in 0..(SCOUT_ENTRY_FAIL_TICKS - 1) {
        assert!(update_entry_fail_counters(&mut counters, &demand, &adjacent).is_empty());
    }
    let crossed = update_entry_fail_counters(&mut counters, &demand, &adjacent);
    assert_eq!(crossed, vec![target], "threshold crossing reports the room");
    assert!(!counters.contains_key(&key), "counter resets after firing");

    // The count is CONSECUTIVE: a pass without a tasked-adjacent scout breaks it.
    let away = vec![(rn("W9N9"), Some(target))];
    update_entry_fail_counters(&mut counters, &demand, &adjacent);
    assert_eq!(counters.get(&key).copied(), Some(1));
    update_entry_fail_counters(&mut counters, &demand, &away);
    assert!(!counters.contains_key(&key), "a non-adjacent pass breaks the streak");

    // A room that LEAVES demand loses its evidence.
    update_entry_fail_counters(&mut counters, &demand, &adjacent);
    assert!(counters.contains_key(&key));
    let empty: Vec<RoomName> = Vec::new();
    update_entry_fail_counters(&mut counters, &empty, &adjacent);
    assert!(!counters.contains_key(&key), "leaving demand clears the evidence");

    // A scout adjacent but NOT tasked with the room is not evidence.
    let untasked = vec![(rn("W5N6"), Some(rn("W1N1")))];
    let crossed = update_entry_fail_counters(&mut counters, &demand, &untasked);
    assert!(crossed.is_empty());
    assert!(!counters.contains_key(&key), "untasked adjacency is not evidence");
}

#[test]
fn crossed_rooms_come_out_in_game_order() {
    let a = rn("W5N5");
    let b = rn("W6N6");
    let c = rn("E1N6");
    let mut counters: HashMap<u16, u32> = HashMap::new();
    for r in [a, b, c] {
        counters.insert(r.packed_repr(), SCOUT_ENTRY_FAIL_TICKS - 1);
    }
    let scouts = vec![
        (rn("W5N4"), Some(a)),
        (rn("W6N7"), Some(b)),
        (rn("E1N5"), Some(c)),
    ];
    let crossed = update_entry_fail_counters(&mut counters, &[a, c, b], &scouts);
    let mut expected = vec![
        screeps::RoomName::new("W5N5").unwrap(),
        screeps::RoomName::new("W6N6").unwrap(),
        screeps::RoomName::new("E1N6").unwrap(),
    ];
    expected.sort();
    let got: Vec<u16> = crossed.iter().map(|r| r.packed_repr()).collect();
    let want: Vec<u16> = expected.iter().map(|r| r.packed_repr()).collect();
    assert_eq!(got, want);
    assert!(counters.is_empty());
}

#[test]
fn room_order_follows_the_game_order() {
    let names = ["W5N5", "W6N6", "E1N6", "W5S5", "E0N0", "W0N0"];
    for x in names {
        for y in names {
            let gx = screeps::RoomName::new(x).unwrap();
            let gy = screeps::RoomName::new(y).unwrap();
            assert_eq!(room_name_lt(rn(x), rn(y)), gx < gy, "{x} < {y}");
        }
    }
}

#[test]
fn tour_ticks_sum_chebyshev_legs() {
    assert_eq!(tour_ticks(rn("W10N10"), &[]), 0);
    // W10N10 -> W12N11 (2 hops) -> W12N10 (1 hop) -> W10N10 (2 hops).
    let tour = [rn("W12N11"), rn("W12N10"), rn("W10N10")];
    assert_eq!(tour_ticks(rn("W10N10"), &tour), 5 * TICKS_PER_ROOM_HOP);
}

#[test]
fn insertion_prefers_the_cheapest_then_earliest_position() {
    // Tour W10N10 -> [W14N10, W10N10]; inserting W12N10 costs 0 before the
    // first stop and 0 before the second: the earliest wins.
    let tour = [rn("W14N10"), rn("W10N10")];
    let (delta, pos) = best_insertion(rn("W10N10"), &tour, rn("W12N10"), 10_000).unwrap();
    assert_eq!((delta, pos), (0, 0));
    // Appending a far room costs its direct leg from the last stop.
    let (delta, pos) = best_insertion(rn("W10N10"), &[rn("W10N10")], rn("W10N20"), 10_000).unwrap();
    assert_eq!(delta, 10 * TICKS_PER_ROOM_HOP);
    assert!(pos <= 1);
}

fn seen(rooms: &mut HashMap<u16, Vec<RoomName>>, room: &str, exits: &[&str]) {
    rooms.insert(rn(room).packed_repr(), exits.iter().map(|e| rn(e)).collect());
}

#[test]
fn frontier_is_the_nearest_unseen_room() {
    let mut rooms = HashMap::new();
    // W5N5 leads to the seen W6N5 and the unseen W5N6; W6N5 leads on to the
    // unseen W7N5 (two hops).
    seen(&mut rooms, "W5N5", &["W6N5", "W5N6"]);
    seen(&mut rooms, "W6N5", &["W5N5", "W7N5"]);
    assert_eq!(nearest_unseen_frontier(rn("W5N5"), &rooms), Some(rn("W5N6")));

    // Once W5N6 is seen with no exits, the two-hop room is next.
    seen(&mut rooms, "W5N6", &[]);
    assert_eq!(nearest_unseen_frontier(rn("W5N5"), &rooms), Some(rn("W7N5")));
}

#[test]
fn frontier_ties_break_by_room_order() {
    let mut rooms = HashMap::new();
    seen(&mut rooms, "W5N5", &["W5N4", "W4N5", "W6N5", "W5N6"]);
    let mut unseen = vec![
        screeps::RoomName::new("W5N4").unwrap(),
        screeps::RoomName::new("W4N5").unwrap(),
        screeps::RoomName::new("W6N5").unwrap(),
        screeps::RoomName::new("W5N6").unwrap(),
    ];
    unseen.sort();
    let got = nearest_unseen_frontier(rn("W5N5"), &rooms).unwrap();
    assert_eq!(got.packed_repr(), unseen[0].packed_repr());
}

#[test]
fn frontier_ties_follow_the_walk_order_not_the_room_order() {
    // Two seen rooms one hop out, each leading to one unseen room two hops
    // out. The walk visits the parents in room order, so the child of the
    // first parent is found first, even where it sorts after the other child.
    let mut parents = vec![screeps::RoomName::new("W4N5").unwrap(), screeps::RoomName::new("W6N5").unwrap()];
    parents.sort();
    let mut children = vec![screeps::RoomName::new("W3N5").unwrap(), screeps::RoomName::new("W7N5").unwrap()];
    children.sort();
    // Give the first parent the child that sorts last.
    let first_child = children[1];
    let other_child = children[0];
    let name = |r: screeps::RoomName| r.to_string();
    let mut rooms = HashMap::new();
    seen(&mut rooms, "W5N5", &[&name(parents[1]), &name(parents[0])]);
    seen(&mut rooms, &name(parents[0]), &[&name(first_child)]);
    seen(&mut rooms, &name(parents[1]), &[&name(other_child)]);
    let got = nearest_unseen_frontier(rn("W5N5"), &rooms).unwrap();
    assert_eq!(got.packed_repr(), first_child.packed_repr());
    assert!(other_child < first_child);
}

#[test]
fn frontier_search_stops_at_the_radius() {
    // A corridor of seen rooms W1N1 .. W(k)N1, each leading east to the next.
    let mut rooms = HashMap::new();
    let names: Vec<String> = (1..=10).map(|i| format!("W{i}N1")).collect();
    let radius = FRONTIER_SEARCH_RADIUS as usize;
    for i in 0..radius {
        seen(&mut rooms, &names[i], &[&names[i + 1]]);
    }
    // The first unseen room is exactly `radius` hops away: found.
    assert_eq!(nearest_unseen_frontier(rn(&names[0]), &rooms), Some(rn(&names[radius])));
    // One hop further: out of reach.
    seen(&mut rooms, &names[radius], &[&names[radius + 1]]);
    assert_eq!(nearest_unseen_frontier(rn(&names[0]), &rooms), None);
}

#[test]
fn frontier_needs_a_seen_start() {
    let rooms: HashMap<u16, Vec<RoomName>> = HashMap::new();
    assert_eq!(nearest_unseen_frontier(rn("W5N5"), &rooms), None);
    let mut closed = HashMap::new();
    seen(&mut closed, "W5N5", &["W5N5"]);
    assert_eq!(nearest_unseen_frontier(rn("W5N5"), &closed), None);
}

#[test]
fn closest_room_prefers_fewer_hops_then_room_order() {
    let from = rn("W5N5");
    let rooms = [rn("W7N5"), rn("W6N6"), rn("W5N5"), rn("W4N4"), rn("W3N5")];
    // W6N6 and W4N4 are one hop away; reading order breaks the tie.
    let one_hop = if room_name_lt(rn("W6N6"), rn("W4N4")) { 1 } else { 3 };
    assert_eq!(closest_room(from, &rooms, &[], true), Some(one_hop));
    // Without skipping the scout's own room, it is the closest.
    assert_eq!(closest_room(from, &rooms, &[], false), Some(2));
    // Excluded rooms are passed over.
    assert_eq!(closest_room(from, &rooms, &[rn("W6N6"), rn("W4N4")], true), Some(0));
    assert_eq!(closest_room(from, &rooms, &rooms, true), None);
    assert_eq!(closest_room(from, &[], &[], true), None);
}

#[test]
fn unreachable_rooms_clear_once_seen_again() {
    assert!(seen_again(Some(0)));
    assert!(seen_again(Some(10)));
    assert!(!seen_again(Some(11)));
    assert!(!seen_again(None));
}

#[test]
fn strategic_reach_is_ten_hops_from_a_home() {
    assert!(within_strategic_reach(rn("W5N5"), &[rn("W15N5")]));
    assert!(!within_strategic_reach(rn("W5N5"), &[rn("W16N5")]));
    assert!(!within_strategic_reach(rn("W5N5"), &[]));
}

#[test]
fn cheapest_scout_takes_the_smallest_detour() {
    assert_eq!(cheapest_scout(&[]), None);
    assert_eq!(cheapest_scout(&[None, None]), None);
    assert_eq!(cheapest_scout(&[Some((300, 0)), None, Some((100, 2)), Some((100, 0))]), Some(2));
}
