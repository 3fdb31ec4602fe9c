use ibex::gather::{gather_candidate_rooms, GatheredRoom, GatheredRooms};
use ibex::geometry::RoomName;
use std::collections::HashMap;

fn r(p: u16) -> RoomName {
    RoomName::from_packed(p)
}

fn exits_of(edges: &[(u16, &[u16])]) -> HashMap<u16, Vec<RoomName>> {
    let mut m = HashMap::new();
    for (from, tos) in edges {
        m.insert(*from, tos.iter().map(|t| r(*t)).collect());
    }
    m
}

fn find(rooms: &[GatheredRoom], p: u16) -> Option<&GatheredRoom> {
    rooms.iter().find(|g| g.room.packed == p)
}

fn gather(seeds: &[u16], edges: &[(u16, &[u16])], judged: &[(u16, bool, bool)]) -> GatheredRooms {
    let seeds: Vec<RoomName> = seeds.iter().map(|p| r(*p)).collect();
    let exits = exits_of(edges);
    let mut j = HashMap::new();
    for (p, viable, expand) in judged {
        j.insert(*p, (*viable, *expand));
    }
    gather_candidate_rooms(&seeds, &exits, &j)
}

#[test]
fn candidates_carry_their_first_distance_and_home() {
    // A(1) -> B(2), C(3); B -> D(4); C -> D, E(5).
    let out = gather(
        &[1],
        &[(1, &[2, 3]), (2, &[4]), (3, &[4, 5])],
        &[(2, true, true), (3, false, true), (4, true, false)],
    );
    assert_eq!(out.candidates.len(), 2);
    let b = find(&out.candidates, 2).unwrap();
    assert_eq!(b.distance, 1);
    assert_eq!(b.homes, vec![true]);
    let d = find(&out.candidates, 4).unwrap();
    assert_eq!(d.distance, 2);
    assert_eq!(d.homes, vec![true]);
    assert!(find(&out.candidates, 3).is_none());
    assert!(find(&out.candidates, 1).is_none());
    assert_eq!(out.unknown.len(), 1);
    let e = find(&out.unknown, 5).unwrap();
    assert_eq!(e.distance, 2);
    assert_eq!(e.homes, vec![true]);
}

#[test]
fn a_room_reached_from_two_homes_keeps_both() {
    let out = gather(&[10, 20], &[(10, &[30]), (20, &[30])], &[(30, true, true)]);
    assert_eq!(out.candidates.len(), 1);
    assert_eq!(out.candidates[0].room.packed, 30);
    assert_eq!(out.candidates[0].distance, 1);
    assert_eq!(out.candidates[0].homes, vec![true, true]);
    assert!(out.unknown.is_empty());
}

#[test]
fn homes_are_those_of_the_rooms_that_first_reached_a_room() {
    // Home 10 reaches 30 at one hop; home 20 only at two hops, through 40.
    let out = gather(
        &[10, 20],
        &[(10, &[30]), (20, &[40]), (40, &[30])],
        &[(30, true, true), (40, false, true)],
    );
    let c = find(&out.candidates, 30).unwrap();
    assert_eq!(c.distance, 1);
    assert_eq!(c.homes, vec![true, false]);
}

#[test]
fn a_room_that_cannot_expand_stops_the_walk() {
    let out = gather(&[1], &[(1, &[2]), (2, &[3])], &[(2, true, false), (3, true, true)]);
    assert_eq!(out.candidates.len(), 1);
    assert_eq!(out.candidates[0].room.packed, 2);
    assert!(out.unknown.is_empty());
}

#[test]
fn an_unknown_room_reports_the_last_level_it_was_reached_at() {
    // 1 -> 9 (unknown) and 2; 2 -> 3; 3 -> 9 again, two levels later.
    let out = gather(
        &[1],
        &[(1, &[9, 2]), (2, &[3]), (3, &[9])],
        &[(2, true, true), (3, true, true)],
    );
    assert_eq!(out.unknown.len(), 1);
    assert_eq!(out.unknown[0].room.packed, 9);
    assert_eq!(out.unknown[0].distance, 3);
    assert_eq!(find(&out.candidates, 3).unwrap().distance, 2);
}

#[test]
fn seeds_are_never_candidates_and_exits_back_home_are_ignored() {
    let out = gather(&[1], &[(1, &[2]), (2, &[1])], &[(1, true, true), (2, true, true)]);
    assert_eq!(out.candidates.len(), 1);
    assert_eq!(out.candidates[0].room.packed, 2);
}

#[test]
fn no_seeds_gather_nothing() {
    let out = gather(&[], &[(1, &[2])], &[(2, true, true)]);
    assert!(out.candidates.is_empty());
    assert!(out.unknown.is_empty());
}

#[test]
fn a_home_named_twice_is_walked_once() {
    let out = gather(&[1, 1], &[(1, &[2])], &[(2, true, true)]);
    assert_eq!(out.candidates.len(), 1);
    assert_eq!(out.candidates[0].distance, 1);
    assert_eq!(out.candidates[0].homes, vec![true, true]);
}
