//! Scout-fleet kernels: cheapest insertion of a room into a scout's tour
//! (Chebyshev room hops × 50 ticks), tour length, and the room-centric
//! entry-failure evidence counter.
use vstd::prelude::*;
use std::collections::{HashMap, HashSet};
use crate::geometry::{RoomName, room_distance, spec_room_distance};

verus! {

broadcast use vstd::std_specs::hash::group_hash_axioms;

/// Consecutive assignment passes a tasked scout may sit adjacent-but-outside
/// a room before the room is reported unreachable.
pub const SCOUT_ENTRY_FAIL_TICKS: u32 = 100;

/// Ticks per room hop of a tour leg.
pub const TICKS_PER_ROOM_HOP: u32 = 50;

/// Ticks of one tour leg.
pub open spec fn leg(a: RoomName, b: RoomName) -> int {
    spec_room_distance(a, b) * TICKS_PER_ROOM_HOP
}

/// Chebyshev room distance obeys the triangle inequality.
pub proof fn lemma_room_distance_triangle(a: RoomName, b: RoomName, c: RoomName)
    ensures
        spec_room_distance(a, c) <= spec_room_distance(a, b) + spec_room_distance(b, c),
        spec_room_distance(a, b) == spec_room_distance(b, a),
        spec_room_distance(a, b) >= 0,
{
}

/// The stop a tour visits before position `pos`.
pub open spec fn stop_before(scout_room: RoomName, tour: Seq<RoomName>, pos: int) -> RoomName {
    if pos == 0 {
        scout_room
    } else {
        tour[pos - 1]
    }
}

/// Extra travel of inserting `room` at `pos` (appending adds one leg, no
/// return).
pub open spec fn insertion_delta(scout_room: RoomName, tour: Seq<RoomName>, room: RoomName, pos: int) -> int {
    let prev = stop_before(scout_room, tour, pos);
    if pos == tour.len() {
        leg(prev, room)
    } else {
        leg(prev, room) + leg(room, tour[pos]) - leg(prev, tour[pos])
    }
}

fn leg_exec(a: RoomName, b: RoomName) -> (t: u32)
    ensures
        t == leg(a, b),
        t <= 255 * 50,
{
    room_distance(a, b) * TICKS_PER_ROOM_HOP
}

/// Best cheapest-insertion of `room` into `tour` for a scout at
/// `scout_room`: `(delta_ticks, position)` minimizing the added travel
/// (earliest position on ties), or `None` if no position fits within
/// `budget_ticks`.
pub fn best_insertion(
    scout_room: RoomName,
    tour: &[RoomName],
    room: RoomName,
    budget_ticks: u32,
) -> (r: Option<(u32, usize)>)
    requires
        tour@.len() < usize::MAX,
    ensures
        r is None <==> forall|q: int|
            0 <= q <= tour@.len() ==> #[trigger] insertion_delta(scout_room, tour@, room, q) > budget_ticks,
        r matches Some((d, p)) ==> {
            &&& p <= tour@.len()
            &&& d == insertion_delta(scout_room, tour@, room, p as int)
            &&& d <= budget_ticks
            &&& forall|q: int|
                0 <= q <= tour@.len() && #[trigger] insertion_delta(scout_room, tour@, room, q)
                    <= budget_ticks ==> d <= insertion_delta(scout_room, tour@, room, q)
            &&& forall|q: int|
                0 <= q < p && #[trigger] insertion_delta(scout_room, tour@, room, q) <= budget_ticks
                    ==> d < insertion_delta(scout_room, tour@, room, q)
        },
{
    let mut best: Option<(u32, usize)> = None;
    let mut pos: usize = 0;
    while pos <= tour.len()
        invariant
            0 <= pos <= tour@.len() + 1,
            tour@.len() < usize::MAX,
            best is None ==> forall|q: int|
                0 <= q < pos ==> #[trigger] insertion_delta(scout_room, tour@, room, q) > budget_ticks,
            best matches Some((d, p)) ==> {
                &&& p < pos
                &&& d == insertion_delta(scout_room, tour@, room, p as int)
                &&& d <= budget_ticks
                &&& forall|q: int|
                    0 <= q < pos && #[trigger] insertion_delta(scout_room, tour@, room, q)
                        <= budget_ticks ==> d <= insertion_delta(scout_room, tour@, room, q)
                &&& forall|q: int|
                    0 <= q < p && #[trigger] insertion_delta(scout_room, tour@, room, q)
                        <= budget_ticks ==> d < insertion_delta(scout_room, tour@, room, q)
            },
        decreases tour@.len() + 1 - pos,
    {
        let prev = if pos == 0 { scout_room } else { tour[pos - 1] };
        let delta: u32 = if pos == tour.len() {
            leg_exec(prev, room)
        } else {
            proof {
                lemma_room_distance_triangle(prev, room, tour@[pos as int]);
            }
            leg_exec(prev, room) + leg_exec(room, tour[pos]) - leg_exec(prev, tour[pos])
        };
        proof {
            assert(delta == insertion_delta(scout_room, tour@, room, pos as int));
        }
        if delta <= budget_ticks {
            let better = match best {
                Some((d, _)) => delta < d,
                None => true,
            };
            if better {
                best = Some((delta, pos));
            }
        }
        pos += 1;
    }
    best
}

/// Total travel ticks of a tour from the scout's room.
pub open spec fn spec_tour_ticks(scout_room: RoomName, tour: Seq<RoomName>) -> int
    decreases tour.len(),
{
    if tour.len() == 0 {
        0
    } else {
        spec_tour_ticks(scout_room, tour.drop_last()) + leg(
            stop_before(scout_room, tour, tour.len() - 1),
            tour.last(),
        )
    }
}

proof fn lemma_tour_ticks_bound(scout_room: RoomName, tour: Seq<RoomName>)
    ensures
        0 <= spec_tour_ticks(scout_room, tour) <= tour.len() * 12750,
    decreases tour.len(),
{
    if tour.len() > 0 {
        lemma_tour_ticks_bound(scout_room, tour.drop_last());
        let t = tour.drop_last();
        assert(stop_before(scout_room, tour, tour.len() - 1) == stop_before(scout_room, t, t.len() as int) || tour.len() == 1);
    }
}

/// A tour's ticks are at least those of any of its prefixes.
proof fn lemma_tour_ticks_prefix(scout_room: RoomName, tour: Seq<RoomName>, i: int)
    requires
        0 <= i <= tour.len(),
    ensures
        spec_tour_ticks(scout_room, tour.take(i)) <= spec_tour_ticks(scout_room, tour),
    decreases tour.len() - i,
{
    if i < tour.len() {
        lemma_tour_ticks_prefix(scout_room, tour, i + 1);
        let t = tour.take(i + 1);
        assert(t.drop_last() =~= tour.take(i));
        assert(spec_room_distance(stop_before(scout_room, t, t.len() - 1), t.last()) >= 0) by {
            lemma_tour_ticks_bound(scout_room, t);
            lemma_tour_ticks_bound(scout_room, t.drop_last());
        }
    } else {
        assert(tour.take(i) =~= tour);
    }
}

/// Total travel ticks of a tour from the scout's current room (Chebyshev
/// legs).
pub fn tour_ticks(scout_room: RoomName, tour: &[RoomName]) -> (t: u32)
    requires
        spec_tour_ticks(scout_room, tour@) <= u32::MAX,
    ensures
        t == spec_tour_ticks(scout_room, tour@),
{
    let mut prev = scout_room;
    let mut total: u32 = 0;
    let mut i: usize = 0;
    while i < tour.len()
        invariant
            0 <= i <= tour@.len(),
            spec_tour_ticks(scout_room, tour@) <= u32::MAX,
            prev == stop_before(scout_room, tour@, i as int),
            total == spec_tour_ticks(scout_room, tour@.take(i as int)),
        decreases tour@.len() - i,
    {
        let ghost t = tour@.take(i as int + 1);
        proof {
            assert(t.drop_last() =~= tour@.take(i as int));
            assert(t.last() == tour@[i as int]);
            assert(stop_before(scout_room, t, i as int) == prev);
            lemma_tour_ticks_bound(scout_room, tour@.take(i as int));
            lemma_tour_ticks_prefix(scout_room, tour@, i as int + 1);
        }
        let l = leg_exec(prev, tour[i]);
        total = total + l;
        prev = tour[i];
        i += 1;
    }
    proof {
        assert(tour@.take(tour@.len() as int) =~= tour@);
    }
    total
}

/// Rooms in reading order: by row, then by column.
pub open spec fn room_before(a: RoomName, b: RoomName) -> bool {
    a.room_y() < b.room_y() || (a.room_y() == b.room_y() && a.room_x() < b.room_x())
}

/// Reading order is total on distinct rooms.
pub proof fn lemma_room_order_total(a: RoomName, b: RoomName)
    requires
        a != b,
    ensures
        room_before(a, b) || room_before(b, a),
{
    if a.room_y() == b.room_y() && a.room_x() == b.room_x() {
        let pa = a.packed as int;
        let pb = b.packed as int;
        vstd::arithmetic::div_mod::lemma_fundamental_div_mod(pa, 256);
        vstd::arithmetic::div_mod::lemma_fundamental_div_mod(pb, 256);
        assert(pa == pb);
    }
}

/// `a` sorts before `b` in reading order.
pub fn room_name_lt(a: RoomName, b: RoomName) -> (r: bool)
    ensures
        r == room_before(a, b),
{
    let ay = a.y_coord();
    let by = b.y_coord();
    ay < by || (ay == by && a.x_coord() < b.x_coord())
}

/// Some scout stands inside `room`.
pub open spec fn scout_entered(scouts: Seq<(RoomName, Option<RoomName>)>, room: RoomName) -> bool {
    exists|i: int| 0 <= i < scouts.len() && (#[trigger] scouts[i]).0 == room
}

/// Some scout tasked with `room` (its tour head) sits one hop away.
pub open spec fn scout_adjacent_tasked(scouts: Seq<(RoomName, Option<RoomName>)>, room: RoomName) -> bool {
    exists|i: int|
        0 <= i < scouts.len() && (#[trigger] scouts[i]).1 == Some(room) && spec_room_distance(
            scouts[i].0,
            room,
        ) == 1
}

/// The evidence count a room reaches this pass.
pub open spec fn next_fail_count(counters: Map<u16, u32>, room: RoomName) -> int {
    let c: int = if counters.contains_key(room.packed) { counters[room.packed] as int } else { 0 };
    if c < u32::MAX { c + 1 } else { c }
}

/// The room accumulates evidence this pass.
pub open spec fn accumulates(scouts: Seq<(RoomName, Option<RoomName>)>, room: RoomName) -> bool {
    !scout_entered(scouts, room) && scout_adjacent_tasked(scouts, room)
}

fn scan_scouts(scouts: &[(RoomName, Option<RoomName>)], room: RoomName) -> (r: (bool, bool))
    ensures
        r.0 == scout_entered(scouts@, room),
        r.1 == scout_adjacent_tasked(scouts@, room),
{
    let mut entered = false;
    let mut adjacent = false;
    let mut i: usize = 0;
    while i < scouts.len()
        invariant
            0 <= i <= scouts@.len(),
            entered == exists|j: int| 0 <= j < i && (#[trigger] scouts@[j]).0 == room,
            adjacent == exists|j: int|
                0 <= j < i && (#[trigger] scouts@[j]).1 == Some(room) && spec_room_distance(
                    scouts@[j].0,
                    room,
                ) == 1,
        decreases scouts@.len() - i,
    {
        let (current, head) = scouts[i];
        if current == room {
            entered = true;
        }
        let tasked = match head {
            Some(h) => h == room,
            None => false,
        };
        if tasked && room_distance(current, room) == 1 {
            adjacent = true;
        }
        i += 1;
    }
    (entered, adjacent)
}

/// Room-centric unreachable-entry evidence. `counters` maps a room (by its
/// packed name) to its consecutive-evidence count; `scouts` is
/// `(current_room, tour_head)` per live scout. For each demand room: a scout
/// inside it resets the count; otherwise a tasked scout one hop away adds
/// one; otherwise the streak breaks. Rooms that left demand lose their
/// evidence. Returns the rooms that just reached [`SCOUT_ENTRY_FAIL_TICKS`]
/// (in reading order), whose counts are reset.
pub fn update_entry_fail_counters(
    counters: &mut HashMap<u16, u32>,
    demand_rooms: &[RoomName],
    scouts: &[(RoomName, Option<RoomName>)],
) -> (crossed: Vec<RoomName>)
    requires
        forall|i: int, j: int|
            0 <= i < j < demand_rooms@.len() ==> demand_rooms@[i] != demand_rooms@[j],
    ensures
        forall|k: u16|
            #![trigger final(counters)@.contains_key(k)]
            final(counters)@.contains_key(k) <==> exists|i: int|
                0 <= i < demand_rooms@.len() && (#[trigger] demand_rooms@[i]).packed == k && accumulates(
                    scouts@,
                    demand_rooms@[i],
                ) && next_fail_count(old(counters)@, demand_rooms@[i]) < SCOUT_ENTRY_FAIL_TICKS,
        forall|i: int|
            #![trigger demand_rooms@[i]]
            0 <= i < demand_rooms@.len() && final(counters)@.contains_key(demand_rooms@[i].packed)
                ==> final(counters)@[demand_rooms@[i].packed] == next_fail_count(old(counters)@, demand_rooms@[i]),
        forall|r: RoomName|
            #![trigger crossed@.contains(r)]
            crossed@.contains(r) <==> demand_rooms@.contains(r) && accumulates(scouts@, r) && next_fail_count(
                old(counters)@,
                r,
            ) >= SCOUT_ENTRY_FAIL_TICKS,
        forall|i: int, j: int| 0 <= i < j < crossed@.len() ==> room_before(crossed@[i], crossed@[j]),
{
    let ghost old_map = counters@;
    proof {
        assert(vstd::std_specs::hash::obeys_key_model::<u16>());
    }
    let mut next: HashMap<u16, u32> = HashMap::new();
    let mut crossed: Vec<RoomName> = Vec::new();
    let mut i: usize = 0;
    while i < demand_rooms.len()
        invariant
            0 <= i <= demand_rooms@.len(),
            old_map == old(counters)@,
            counters@ == old_map,
            forall|a: int, b: int|
                0 <= a < b < demand_rooms@.len() ==> demand_rooms@[a] != demand_rooms@[b],
            forall|k: u16|
                #![trigger next@.contains_key(k)]
                next@.contains_key(k) <==> exists|a: int|
                    0 <= a < i && (#[trigger] demand_rooms@[a]).packed == k && accumulates(
                        scouts@,
                        demand_rooms@[a],
                    ) && next_fail_count(old_map, demand_rooms@[a]) < SCOUT_ENTRY_FAIL_TICKS,
            forall|a: int|
                #![trigger demand_rooms@[a]]
                0 <= a < i && next@.contains_key(demand_rooms@[a].packed) ==> next@[demand_rooms@[a].packed]
                    == next_fail_count(old_map, demand_rooms@[a]),
            forall|r: RoomName|
                #![trigger crossed@.contains(r)]
                crossed@.contains(r) <==> demand_rooms@.take(i as int).contains(r) && accumulates(
                    scouts@,
                    r,
                ) && next_fail_count(old_map, r) >= SCOUT_ENTRY_FAIL_TICKS,
            forall|a: int, b: int| 0 <= a < b < crossed@.len() ==> room_before(crossed@[a], crossed@[b]),
        decreases demand_rooms@.len() - i,
    {
        let room = demand_rooms[i];
        let (entered, adjacent) = scan_scouts(scouts, room);
        let ghost next_before = next@;
        let ghost crossed_before = crossed@;
        let ghost fires = accumulates(scouts@, room) && next_fail_count(old_map, room) >= SCOUT_ENTRY_FAIL_TICKS;
        proof {
            assert(demand_rooms@.take(i as int + 1) =~= demand_rooms@.take(i as int).push(room));
            assert(!demand_rooms@.take(i as int).contains(room)) by {
                if demand_rooms@.take(i as int).contains(room) {
                    let a = choose|a: int| 0 <= a < i && demand_rooms@.take(i as int)[a] == room;
                    assert(demand_rooms@[a] == room);
                }
            }
        }
        if !entered && adjacent {
            let c: u32 = match counters.get(&room.packed) {
                Some(v) => *v,
                None => 0,
            };
            let c1 = if c < u32::MAX { c + 1 } else { c };
            assert(c1 == next_fail_count(old_map, room));
            if c1 >= SCOUT_ENTRY_FAIL_TICKS {
                // Insert in reading order.
                let mut p: usize = 0;
                while p < crossed.len() && room_name_lt(crossed[p], room)
                    invariant
                        0 <= p <= crossed@.len(),
                        forall|a: int| 0 <= a < p ==> room_before(#[trigger] crossed@[a], room),
                    decreases crossed@.len() - p,
                {
                    p += 1;
                }
                proof {
                    assert forall|a: int| p <= a < crossed@.len() implies !room_before(
                        #[trigger] crossed@[a],
                        room,
                    ) by {
                        if p < crossed@.len() {
                            assert(!room_before(crossed@[p as int], room));
                            if a > p {
                                assert(room_before(crossed@[p as int], crossed@[a]));
                            }
                        }
                    }
                }
                crossed.insert(p, room);
                proof {
                    assert forall|a: int, b: int| 0 <= a < b < crossed@.len() implies room_before(
                        crossed@[a],
                        crossed@[b],
                    ) by {
                        if a < p && b < p {
                            assert(crossed@[a] == crossed_before[a] && crossed@[b] == crossed_before[b]);
                        } else if a < p && b == p {
                            assert(crossed@[a] == crossed_before[a]);
                        } else if a < p && b > p {
                            assert(crossed@[a] == crossed_before[a] && crossed@[b] == crossed_before[b - 1]);
                            assert(room_before(crossed_before[a], room));
                            assert(!room_before(crossed_before[b - 1], room));
                            assert(crossed_before[b - 1] != room) by {
                                assert(crossed_before.contains(crossed_before[b - 1]));
                            }
                        } else if a == p {
                            assert(crossed@[b] == crossed_before[b - 1]);
                            assert(!room_before(crossed_before[b - 1], room));
                            assert(crossed_before[b - 1] != room) by {
                                assert(crossed_before.contains(crossed_before[b - 1]));
                            }
                        } else {
                            assert(crossed@[a] == crossed_before[a - 1] && crossed@[b] == crossed_before[b - 1]);
                        }
                    }
                    assert forall|r: RoomName| #[trigger] crossed@.contains(r) <==> crossed_before.contains(r) || r == room by {
                        if crossed@.contains(r) {
                            let a = choose|a: int| 0 <= a < crossed@.len() && crossed@[a] == r;
                            if a < p {
                                assert(crossed_before[a] == r);
                            } else if a > p {
                                assert(crossed_before[a - 1] == r);
                            }
                        }
                        if crossed_before.contains(r) {
                            let a = choose|a: int| 0 <= a < crossed_before.len() && crossed_before[a] == r;
                            if a < p {
                                assert(crossed@[a] == r);
                            } else {
                                assert(crossed@[a + 1] == r);
                            }
                        }
                        if r == room {
                            assert(crossed@[p as int] == room);
                        }
                    }
                }
            } else {
                next.insert(room.packed, c1);
                proof {
                    assert forall|a: int|
                        #![trigger demand_rooms@[a]]
                        0 <= a < i + 1 && next@.contains_key(demand_rooms@[a].packed) implies next@[demand_rooms@[a].packed]
                            == next_fail_count(old_map, demand_rooms@[a]) by {
                        if a < i {
                            if demand_rooms@[a].packed == room.packed {
                                assert(demand_rooms@[a] == room);
                            }
                        }
                    }
                }
            }
        }
        proof {
            if !fires {
                assert(crossed@ == crossed_before);
            }
            assert forall|r: RoomName| #![trigger crossed@.contains(r)] crossed@.contains(r) <==> demand_rooms@.take(
                i as int + 1,
            ).contains(r) && accumulates(scouts@, r) && next_fail_count(old_map, r) >= SCOUT_ENTRY_FAIL_TICKS by {
                if r != room {
                    assert(demand_rooms@.take(i as int + 1).contains(r) == demand_rooms@.take(i as int).contains(r));
                } else {
                    assert(demand_rooms@.take(i as int + 1)[i as int] == room);
                    assert(demand_rooms@.take(i as int + 1).contains(r));
                }
            }
            assert forall|k: u16| #![trigger next@.contains_key(k)] next@.contains_key(k) <==> exists|a: int|
                0 <= a < i + 1 && (#[trigger] demand_rooms@[a]).packed == k && accumulates(
                    scouts@,
                    demand_rooms@[a],
                ) && next_fail_count(old_map, demand_rooms@[a]) < SCOUT_ENTRY_FAIL_TICKS by {
                if next@.contains_key(k) && k != room.packed {
                    assert(next_before.contains_key(k));
                }
                if exists|a: int|
                    0 <= a < i + 1 && (#[trigger] demand_rooms@[a]).packed == k && accumulates(
                        scouts@,
                        demand_rooms@[a],
                    ) && next_fail_count(old_map, demand_rooms@[a]) < SCOUT_ENTRY_FAIL_TICKS {
                    let a = choose|a: int|
                        0 <= a < i + 1 && (#[trigger] demand_rooms@[a]).packed == k && accumulates(
                            scouts@,
                            demand_rooms@[a],
                        ) && next_fail_count(old_map, demand_rooms@[a]) < SCOUT_ENTRY_FAIL_TICKS;
                    if a == i {
                        assert(demand_rooms@[a] == room);
                    }
                }
            }
        }
        i += 1;
    }
    proof {
        assert(demand_rooms@.take(demand_rooms@.len() as int) =~= demand_rooms@);
    }
    *counters = next;
    crossed
}


/// Room hops a scout looks out for a never-seen room when no demand is left.
pub const FRONTIER_SEARCH_RADIUS: u32 = 5;

/// Order of rooms as the game sorts them, or equal.
pub open spec fn room_not_after(a: RoomName, b: RoomName) -> bool {
    !room_before(b, a)
}

/// A copy of `rooms` in reading order.
fn sorted_rooms(rooms: &Vec<RoomName>) -> (out: Vec<RoomName>)
    ensures
        out@.len() == rooms@.len(),
        forall|x: RoomName| #[trigger] out@.contains(x) <==> rooms@.contains(x),
        forall|a: int, b: int| 0 <= a < b < out@.len() ==> room_not_after(out@[a], out@[b]),
{
    let mut out: Vec<RoomName> = Vec::new();
    let mut i: usize = 0;
    while i < rooms.len()
        invariant
            0 <= i <= rooms@.len(),
            out@.len() == i,
            forall|x: RoomName| #[trigger] out@.contains(x) <==> rooms@.take(i as int).contains(x),
            forall|a: int, b: int| 0 <= a < b < out@.len() ==> room_not_after(out@[a], out@[b]),
        decreases rooms@.len() - i,
    {
        let x = rooms[i];
        let ghost before = out@;
        let mut p: usize = 0;
        while p < out.len() && !room_name_lt(x, out[p])
            invariant
                0 <= p <= out@.len(),
                out@ == before,
                forall|a: int| 0 <= a < p ==> room_not_after(#[trigger] out@[a], x),
            decreases out@.len() - p,
        {
            p += 1;
        }
        proof {
            assert forall|a: int| p <= a < out@.len() implies room_not_after(x, #[trigger] out@[a]) by {
                assert(room_before(x, out@[p as int]));
                if a > p {
                    assert(room_not_after(out@[p as int], out@[a]));
                }
            }
        }
        out.insert(p, x);
        proof {
            assert forall|a: int, b: int| 0 <= a < b < out@.len() implies room_not_after(out@[a], out@[b]) by {
                if a < p && b < p {
                    assert(out@[a] == before[a] && out@[b] == before[b]);
                } else if a < p && b == p {
                    assert(out@[a] == before[a]);
                } else if a < p {
                    assert(out@[a] == before[a] && out@[b] == before[b - 1]);
                } else if a == p {
                    assert(out@[b] == before[b - 1]);
                } else {
                    assert(out@[a] == before[a - 1] && out@[b] == before[b - 1]);
                }
            }
            assert(rooms@.take(i as int + 1) =~= rooms@.take(i as int).push(x));
            assert forall|r: RoomName| #[trigger] out@.contains(r) <==> rooms@.take(i as int + 1).contains(r) by {
                if rooms@.take(i as int + 1).contains(r) && r != x {
                    let a = choose|a: int| 0 <= a < i + 1 && #[trigger] rooms@.take(i as int + 1)[a] == r;
                    assert(rooms@.take(i as int)[a] == r);
                    assert(rooms@.take(i as int).contains(r));
                }
                if rooms@.take(i as int).contains(r) {
                    let a = choose|a: int| 0 <= a < i && #[trigger] rooms@.take(i as int)[a] == r;
                    assert(rooms@.take(i as int + 1)[a] == r);
                }
                assert(rooms@.take(i as int + 1)[i as int] == x);
                if out@.contains(r) {
                    let a = choose|a: int| 0 <= a < out@.len() && out@[a] == r;
                    if a < p {
                        assert(before[a] == r);
                    } else if a > p {
                        assert(before[a - 1] == r);
                    }
                }
                if before.contains(r) {
                    let a = choose|a: int| 0 <= a < before.len() && before[a] == r;
                    if a < p {
                        assert(out@[a] == r);
                    } else {
                        assert(out@[a + 1] == r);
                    }
                }
                if r == x {
                    assert(out@[p as int] == x);
                }
            }
        }
        i += 1;
    }
    proof {
        assert(rooms@.take(rooms@.len() as int) =~= rooms@);
    }
    out
}

/// `n` is one of the cached exits of the seen room `p`.
pub open spec fn exit_of(rooms: Map<u16, Vec<RoomName>>, p: u16, n: u16) -> bool {
    rooms.contains_key(p) && exists|j: int| 0 <= j < rooms[p]@.len() && (#[trigger] rooms[p]@[j]).packed == n
}

/// Rooms within `k` exit hops of `start`, stepping only out of seen rooms.
pub open spec fn reach(rooms: Map<u16, Vec<RoomName>>, start: u16, k: nat) -> Set<u16>
    decreases k,
{
    if k == 0 {
        Set::empty().insert(start)
    } else {
        let prev = reach(rooms, start, (k - 1) as nat);
        prev.union(Set::new(|n: u16| exists|p: u16| prev.contains(p) && #[trigger] exit_of(rooms, p, n)))
    }
}

/// Every room within `k` hops, other than `start` itself, has been seen.
pub open spec fn no_frontier_within(rooms: Map<u16, Vec<RoomName>>, start: u16, k: nat) -> bool {
    forall|u: u16| #[trigger] reach(rooms, start, k).contains(u) && u != start ==> rooms.contains_key(u)
}

/// Visit the exits of one room in order: each exit not yet visited is
/// marked; the first unseen one is returned at once, seen ones queue on
/// `next`.
fn expand_exits(
    exits: &Vec<RoomName>,
    rooms: &HashMap<u16, Vec<RoomName>>,
    visited: &mut HashSet<u16>,
    next: &mut Vec<RoomName>,
) -> (found: Option<RoomName>)
    requires
        forall|a: int, b: int| 0 <= a < b < exits@.len() ==> room_not_after(exits@[a], exits@[b]),
    ensures
        old(visited)@.subset_of(final(visited)@),
        forall|a: int, b: int|
            old(next)@.len() <= a < b < final(next)@.len() ==> key_before(final(next)@[a].packed, final(next)@[b].packed),
        forall|a: int| old(next)@.len() <= a < final(next)@.len() ==> exits@.contains(#[trigger] final(next)@[a]),
        forall|u: u16|
            #[trigger] final(visited)@.contains(u) && !old(visited)@.contains(u) ==> exists|j: int|
                0 <= j < exits@.len() && exits@[j].packed == u,
        final(next)@.len() >= old(next)@.len(),
        forall|a: int| 0 <= a < old(next)@.len() ==> final(next)@[a] == old(next)@[a],
        forall|a: int|
            old(next)@.len() <= a < final(next)@.len() ==> final(visited)@.contains(
                (#[trigger] final(next)@[a]).packed,
            ) && !old(visited)@.contains(final(next)@[a].packed) && rooms@.contains_key(
                final(next)@[a].packed,
            ),
        forall|u: u16|
            #[trigger] final(visited)@.contains(u) && !old(visited)@.contains(u) && rooms@.contains_key(u)
                ==> exists|a: int| old(next)@.len() <= a < final(next)@.len() && final(next)@[a].packed == u,
        match found {
            Some(n) => {
                &&& exits@.contains(n)
                &&& !old(visited)@.contains(n.packed)
                &&& !rooms@.contains_key(n.packed)
                &&& exists|j: int|
                    0 <= j < exits@.len() && exits@[j] == n && forall|b: int|
                        0 <= b < j ==> old(visited)@.contains(#[trigger] exits@[b].packed) || rooms@.contains_key(
                            exits@[b].packed,
                        )
            },
            None => {
                &&& forall|j: int| 0 <= j < exits@.len() ==> final(visited)@.contains(#[trigger] exits@[j].packed)
                &&& forall|u: u16|
                    #[trigger] final(visited)@.contains(u) && !old(visited)@.contains(u) ==> rooms@.contains_key(u)
            },
        },
{
    let mut j: usize = 0;
    while j < exits.len()
        invariant
            0 <= j <= exits@.len(),
            old(visited)@.subset_of(visited@),
            forall|u: u16|
                #[trigger] visited@.contains(u) && !old(visited)@.contains(u) ==> exists|b: int|
                    0 <= b < j && exits@[b].packed == u,
            next@.len() >= old(next)@.len(),
            forall|a: int| 0 <= a < old(next)@.len() ==> next@[a] == old(next)@[a],
            forall|a: int|
                old(next)@.len() <= a < next@.len() ==> visited@.contains((#[trigger] next@[a]).packed)
                    && !old(visited)@.contains(next@[a].packed) && rooms@.contains_key(next@[a].packed),
            forall|u: u16|
                #[trigger] visited@.contains(u) && !old(visited)@.contains(u) && rooms@.contains_key(u)
                    ==> exists|a: int| old(next)@.len() <= a < next@.len() && next@[a].packed == u,
            forall|b: int| 0 <= b < j ==> visited@.contains(#[trigger] exits@[b].packed),
            forall|u: u16| #[trigger] visited@.contains(u) && !old(visited)@.contains(u) ==> rooms@.contains_key(u),
            forall|a: int, b: int| 0 <= a < b < exits@.len() ==> room_not_after(exits@[a], exits@[b]),
            forall|a: int, b: int|
                old(next)@.len() <= a < b < next@.len() ==> key_before(next@[a].packed, next@[b].packed),
            forall|a: int| old(next)@.len() <= a < next@.len() ==> exits@.contains(#[trigger] next@[a]),
            forall|a: int, b: int|
                old(next)@.len() <= a < next@.len() && j <= b < exits@.len() ==> room_not_after(
                    #[trigger] next@[a],
                    #[trigger] exits@[b],
                ),
            forall|b: int|
                0 <= b < j ==> old(visited)@.contains(#[trigger] exits@[b].packed) || rooms@.contains_key(
                    exits@[b].packed,
                ),
        decreases exits@.len() - j,
    {
        let n = exits[j];
        let ghost before = visited@;
        let ghost next_before = next@;
        let fresh = visited.insert(n.packed);
        if fresh {
            if !rooms.contains_key(&n.packed) {
                proof {
                    assert(exits@[j as int] == n);
                }
                return Some(n);
            }
            next.push(n);
            proof {
                assert(next@[next@.len() - 1] == n);
                assert(exits@[j as int] == n);
                assert forall|a: int, b: int|
                    old(next)@.len() <= a < b < next@.len() implies key_before(next@[a].packed, next@[b].packed) by {
                    if b == next@.len() - 1 {
                        assert(next@[a] == next_before[a]);
                        assert(room_not_after(next_before[a], exits@[j as int]));
                        assert(before.contains(next_before[a].packed));
                        assert(next_before[a] != n);
                        lemma_room_order_total(next_before[a], n);
                    } else {
                        assert(next@[a] == next_before[a]);
                        assert(next@[b] == next_before[b]);
                    }
                }
                assert forall|a: int| old(next)@.len() <= a < next@.len() implies exits@.contains(#[trigger] next@[a]) by {
                    if a < next@.len() - 1 {
                        assert(next@[a] == next_before[a]);
                    }
                }
                assert forall|a: int, b: int|
                    old(next)@.len() <= a < next@.len() && j + 1 <= b < exits@.len() implies room_not_after(
                    #[trigger] next@[a],
                    #[trigger] exits@[b],
                ) by {
                    if a < next@.len() - 1 {
                        assert(next@[a] == next_before[a]);
                    }
                }
                assert forall|a: int| old(next)@.len() <= a < next@.len() implies visited@.contains(
                    (#[trigger] next@[a]).packed,
                ) && !old(visited)@.contains(next@[a].packed) && rooms@.contains_key(next@[a].packed) by {
                    if a < next@.len() - 1 {
                        assert(next@[a] == next_before[a]);
                    }
                }
                assert forall|u: u16|
                    #[trigger] visited@.contains(u) && !old(visited)@.contains(u) && rooms@.contains_key(u)
                        implies exists|a: int| old(next)@.len() <= a < next@.len() && next@[a].packed == u by {
                    if u == n.packed {
                        assert(next@[next@.len() - 1].packed == u);
                    } else {
                        assert(before.contains(u));
                        let a = choose|a: int| old(next)@.len() <= a < next_before.len() && next_before[a].packed == u;
                        assert(next@[a] == next_before[a]);
                    }
                }
            }
        }
        proof {
            assert forall|u: u16|
                #[trigger] visited@.contains(u) && !old(visited)@.contains(u) implies exists|b: int|
                    0 <= b < j + 1 && exits@[b].packed == u by {
                if u == n.packed {
                    assert(exits@[j as int].packed == u);
                } else {
                    assert(before.contains(u));
                }
            }
        }
        j += 1;
    }
    None
}

/// Reading order on packed room names.
pub open spec fn key_before(a: u16, b: u16) -> bool {
    room_before(RoomName { packed: a }, RoomName { packed: b })
}

/// Step `i` of `p` follows a cached exit.
pub open spec fn walk_step(rooms: Map<u16, Vec<RoomName>>, p: Seq<u16>, i: int) -> bool {
    exit_of(rooms, p[i], p[i + 1])
}

/// `p` is a walk over cached exits from `start`.
pub open spec fn is_walk(rooms: Map<u16, Vec<RoomName>>, start: u16, p: Seq<u16>) -> bool {
    &&& p.len() >= 1
    &&& p[0] == start
    &&& forall|i: int| 0 <= i < p.len() - 1 ==> #[trigger] walk_step(rooms, p, i)
}

/// `p` comes before `q`, a walk of the same length, at their first
/// difference in reading order.
pub open spec fn walk_before(p: Seq<u16>, q: Seq<u16>) -> bool {
    &&& p.len() == q.len()
    &&& exists|i: int| 0 <= i < p.len() && p.take(i) == q.take(i) && #[trigger] key_before(p[i], q[i])
}

/// `p` is a walk from `start` to a never-seen room other than `start` that
/// comes first in reading order among all such walks of its length.
pub open spec fn first_frontier_walk(rooms: Map<u16, Vec<RoomName>>, start: u16, p: Seq<u16>) -> bool {
    &&& is_walk(rooms, start, p)
    &&& !rooms.contains_key(p.last())
    &&& p.last() != start
    &&& forall|q: Seq<u16>|
        #[trigger] is_walk(rooms, start, q) && q.len() == p.len() && !rooms.contains_key(q.last()) && q.last() != start
            ==> q == p || walk_before(p, q)
}

proof fn lemma_walk_before_trans(p: Seq<u16>, q: Seq<u16>, r: Seq<u16>)
    requires
        walk_before(p, q),
        walk_before(q, r),
    ensures
        walk_before(p, r),
{
    let i = choose|i: int| 0 <= i < p.len() && p.take(i) == q.take(i) && #[trigger] key_before(p[i], q[i]);
    let j = choose|j: int| 0 <= j < q.len() && q.take(j) == r.take(j) && #[trigger] key_before(q[j], r[j]);
    if i < j {
        assert(q.take(j)[i] == r.take(j)[i]);
        assert forall|k: int| 0 <= k < i implies q[k] == r[k] by {
            assert(q.take(j)[k] == r.take(j)[k]);
        }
        assert(p.take(i) =~= r.take(i)) by {
            assert forall|k: int| 0 <= k < i implies p[k] == q[k] by {
                assert(p.take(i)[k] == q.take(i)[k]);
            }
        }
        assert(key_before(p[i], r[i]));
    } else if j < i {
        assert(p.take(i)[j] == q.take(i)[j]);
        assert(p.take(j) =~= r.take(j)) by {
            assert forall|k: int| 0 <= k < j implies p[k] == r[k] by {
                assert(p.take(i)[k] == q.take(i)[k]);
                assert(q.take(j)[k] == r.take(j)[k]);
            }
        }
        assert(key_before(p[j], r[j]));
    } else {
        assert(key_before(p[i], r[i]));
    }
}

proof fn lemma_walk_before_extend(p: Seq<u16>, q: Seq<u16>, x: u16, y: u16)
    requires
        walk_before(p, q),
    ensures
        walk_before(p.push(x), q.push(y)),
{
    let i = choose|i: int| 0 <= i < p.len() && p.take(i) == q.take(i) && #[trigger] key_before(p[i], q[i]);
    assert(p.push(x).take(i) =~= p.take(i));
    assert(q.push(y).take(i) =~= q.take(i));
    assert(key_before(p.push(x)[i], q.push(y)[i]));
}

proof fn lemma_walk_before_last(p: Seq<u16>, x: u16, y: u16)
    requires
        key_before(x, y),
    ensures
        walk_before(p.push(x), p.push(y)),
{
    let i = p.len() as int;
    assert(p.push(x).take(i) =~= p.push(y).take(i));
    assert(key_before(p.push(x)[i], p.push(y)[i]));
}

proof fn lemma_walk_prefix(rooms: Map<u16, Vec<RoomName>>, start: u16, q: Seq<u16>, k: int)
    requires
        is_walk(rooms, start, q),
        1 <= k <= q.len(),
    ensures
        is_walk(rooms, start, q.take(k)),
{
    assert forall|i: int| 0 <= i < q.take(k).len() - 1 implies #[trigger] walk_step(rooms, q.take(k), i) by {
        assert(walk_step(rooms, q, i));
    }
}

proof fn lemma_walk_extend(rooms: Map<u16, Vec<RoomName>>, start: u16, p: Seq<u16>, x: u16)
    requires
        is_walk(rooms, start, p),
        exit_of(rooms, p.last(), x),
    ensures
        is_walk(rooms, start, p.push(x)),
{
    assert forall|i: int| 0 <= i < p.push(x).len() - 1 implies #[trigger] walk_step(rooms, p.push(x), i) by {
        if i < p.len() - 1 {
            assert(walk_step(rooms, p, i));
        }
    }
}

proof fn lemma_walk_reach(rooms: Map<u16, Vec<RoomName>>, start: u16, q: Seq<u16>)
    requires
        is_walk(rooms, start, q),
    ensures
        reach(rooms, start, (q.len() - 1) as nat).contains(q.last()),
    decreases q.len(),
{
    if q.len() > 1 {
        let p = q.take(q.len() - 1);
        lemma_walk_prefix(rooms, start, q, q.len() - 1);
        lemma_walk_reach(rooms, start, p);
        assert(walk_step(rooms, q, q.len() - 2));
        assert(exit_of(rooms, p.last(), q.last()));
    }
}

/// The rooms first reached at depth `d`, in the order the walk visits
/// them, each with the walk that reaches it first in reading order.
spec fn bfs_layer(
    m: Map<u16, Vec<RoomName>>,
    s: u16,
    d: nat,
    layer: Seq<RoomName>,
    paths: Seq<Seq<u16>>,
) -> bool {
    &&& paths.len() == layer.len()
    &&& forall|a: int|
        0 <= a < layer.len() ==> is_walk(m, s, #[trigger] paths[a]) && paths[a].len() == d + 1 && paths[a].last()
            == layer[a].packed
    &&& forall|a: int, b: int| #![trigger paths[a], paths[b]] 0 <= a < b < layer.len() ==> walk_before(paths[a], paths[b])
    &&& forall|q: Seq<u16>|
        #[trigger] first_reached_by(m, s, d, q) ==> exists|a: int|
            0 <= a < layer.len() && layer[a].packed == q.last() && (paths[a] == q || walk_before(paths[a], q))
}

/// `q` is a walk of `d` hops to a room not within `d - 1` hops.
spec fn first_reached_by(m: Map<u16, Vec<RoomName>>, s: u16, d: nat, q: Seq<u16>) -> bool {
    is_walk(m, s, q) && q.len() == d + 1 && !(d > 0 && reach(m, s, (d - 1) as nat).contains(q.last()))
}

/// A walk of `d + 1` hops to a room outside `reach(d)` runs through a room
/// first reached at depth `d`.
proof fn lemma_walk_last_hop(m: Map<u16, Vec<RoomName>>, s: u16, d: nat, q: Seq<u16>)
    requires
        is_walk(m, s, q),
        q.len() == d + 2,
        !reach(m, s, d).contains(q.last()),
    ensures
        is_walk(m, s, q.take(d + 1int)),
        q.take(d + 1int).len() == d + 1,
        exit_of(m, q.take(d + 1int).last(), q.last()),
        !(d > 0 && reach(m, s, (d - 1) as nat).contains(q.take(d + 1int).last())),
        q =~= q.take(d + 1int).push(q.last()),
{
    lemma_walk_prefix(m, s, q, d + 1int);
    assert(walk_step(m, q, d as int));
    let u = q.take(d + 1int).last();
    assert(u == q[d as int]);
    if d > 0 && reach(m, s, (d - 1) as nat).contains(u) {
        assert(exit_of(m, u, q.last()));
        assert(reach(m, s, d).contains(q.last()));
    }
}

/// The first never-seen room met while scanning the sorted exits of
/// `layer[i]` ends the first frontier walk.
proof fn lemma_found_first(
    m: Map<u16, Vec<RoomName>>,
    s: u16,
    d: nat,
    layer: Seq<RoomName>,
    paths: Seq<Seq<u16>>,
    i: int,
    before: Set<u16>,
    ordered: Seq<RoomName>,
    n: RoomName,
)
    requires
        bfs_layer(m, s, d, layer, paths),
        no_frontier_within(m, s, d),
        0 <= i < layer.len(),
        before.contains(s),
        forall|u: u16| #[trigger] before.contains(u) && u != s ==> m.contains_key(u),
        forall|a: int, e: u16| 0 <= a < i && #[trigger] exit_of(m, layer[a].packed, e) ==> before.contains(e),
        m.contains_key(layer[i].packed),
        forall|x: RoomName| #[trigger] ordered.contains(x) <==> m[layer[i].packed]@.contains(x),
        forall|a: int, b: int| 0 <= a < b < ordered.len() ==> room_not_after(ordered[a], ordered[b]),
        exists|j: int|
            0 <= j < ordered.len() && ordered[j] == n && forall|b: int|
                0 <= b < j ==> before.contains(#[trigger] ordered[b].packed) || m.contains_key(ordered[b].packed),
        !before.contains(n.packed),
        !m.contains_key(n.packed),
    ensures
        first_frontier_walk(m, s, paths[i].push(n.packed)),
        paths[i].push(n.packed).len() == d + 2,
{
    let p = paths[i].push(n.packed);
    let j = choose|j: int|
        0 <= j < ordered.len() && ordered[j] == n && forall|b: int|
            0 <= b < j ==> before.contains(#[trigger] ordered[b].packed) || m.contains_key(ordered[b].packed);
    assert(ordered.contains(n));
    assert(m[layer[i].packed]@.contains(n));
    let jj = choose|jj: int| 0 <= jj < m[layer[i].packed]@.len() && m[layer[i].packed]@[jj] == n;
    assert(exit_of(m, layer[i].packed, n.packed));
    lemma_walk_extend(m, s, paths[i], n.packed);
    assert forall|q: Seq<u16>|
        #[trigger] is_walk(m, s, q) && q.len() == p.len() && !m.contains_key(q.last()) && q.last() != s implies q == p
            || walk_before(p, q) by {
        let v = q.last();
        assert(!reach(m, s, d).contains(v));
        lemma_walk_last_hop(m, s, d, q);
        let qq = q.take(d + 1int);
        assert(first_reached_by(m, s, d, qq));
        let a = choose|a: int|
            0 <= a < layer.len() && layer[a].packed == qq.last() && (paths[a] == qq || walk_before(paths[a], qq));
        assert(exit_of(m, layer[a].packed, v));
        if a < i {
            assert(before.contains(v));
        } else if a > i {
            assert(walk_before(paths[i], paths[a]));
            if paths[a] != qq {
                lemma_walk_before_trans(paths[i], paths[a], qq);
            }
            lemma_walk_before_extend(paths[i], qq, n.packed, v);
        } else {
            if paths[i] != qq {
                lemma_walk_before_extend(paths[i], qq, n.packed, v);
            } else if v != n.packed {
                let t = choose|t: int| 0 <= t < m[layer[i].packed]@.len() && (#[trigger] m[layer[i].packed]@[t]).packed == v;
                let rv = m[layer[i].packed]@[t];
                assert(m[layer[i].packed]@.contains(rv));
                assert(ordered.contains(rv));
                let jv = choose|jv: int| 0 <= jv < ordered.len() && ordered[jv] == rv;
                if jv < j {
                    assert(before.contains(ordered[jv].packed) || m.contains_key(ordered[jv].packed));
                }
                assert(jv > j);
                assert(room_not_after(ordered[j], ordered[jv]));
                lemma_room_order_total(n, rv);
                assert(key_before(n.packed, v));
                lemma_walk_before_last(qq, n.packed, v);
            }
        }
    }
}

/// The walks of the next layer extend those of their parents.
proof fn lemma_next_walks(
    m: Map<u16, Vec<RoomName>>,
    s: u16,
    d: nat,
    layer: Seq<RoomName>,
    paths: Seq<Seq<u16>>,
    next: Seq<RoomName>,
    next_paths: Seq<Seq<u16>>,
    par: Seq<int>,
)
    requires
        paths.len() == layer.len(),
        forall|a: int|
            0 <= a < layer.len() ==> is_walk(m, s, #[trigger] paths[a]) && paths[a].len() == d + 1 && paths[a].last()
                == layer[a].packed,
        next_paths.len() == next.len(),
        par.len() == next.len(),
        forall|b: int|
            0 <= b < next.len() ==> 0 <= #[trigger] par[b] < layer.len() && next_paths[b] == paths[par[b]].push(
                next[b].packed,
            ) && exit_of(m, layer[par[b]].packed, next[b].packed),
    ensures
        forall|b: int|
            0 <= b < next.len() ==> is_walk(m, s, #[trigger] next_paths[b]) && next_paths[b].len() == d + 2
                && next_paths[b].last() == next[b].packed,
{
    assert forall|b: int| 0 <= b < next.len() implies is_walk(m, s, #[trigger] next_paths[b]) && next_paths[b].len()
        == d + 2 && next_paths[b].last() == next[b].packed by {
        let a = par[b];
        assert(is_walk(m, s, paths[a]));
        lemma_walk_extend(m, s, paths[a], next[b].packed);
    }
}

/// The walks of the next layer come in reading order.
proof fn lemma_next_order(
    layer: Seq<RoomName>,
    paths: Seq<Seq<u16>>,
    next: Seq<RoomName>,
    next_paths: Seq<Seq<u16>>,
    par: Seq<int>,
)
    requires
        paths.len() == layer.len(),
        forall|a: int, b: int| #![trigger paths[a], paths[b]] 0 <= a < b < layer.len() ==> walk_before(paths[a], paths[b]),
        next_paths.len() == next.len(),
        par.len() == next.len(),
        forall|b: int|
            0 <= b < next.len() ==> 0 <= #[trigger] par[b] < layer.len() && next_paths[b] == paths[par[b]].push(
                next[b].packed,
            ),
        forall|b: int, c: int| #![trigger par[b], par[c]] 0 <= b < c < next.len() ==> par[b] <= par[c],
        forall|b: int, c: int|
            #![trigger next[b], next[c]]
            0 <= b < c < next.len() && par[b] == par[c] ==> key_before(next[b].packed, next[c].packed),
    ensures
        forall|b: int, c: int|
            #![trigger next_paths[b], next_paths[c]]
            0 <= b < c < next.len() ==> walk_before(next_paths[b], next_paths[c]),
{
    assert forall|b: int, c: int| #![trigger next_paths[b], next_paths[c]] 0 <= b < c < next.len() implies walk_before(
        next_paths[b],
        next_paths[c],
    ) by {
        assert(par[b] <= par[c]);
        if par[b] < par[c] {
            assert(walk_before(paths[par[b]], paths[par[c]]));
            lemma_walk_before_extend(paths[par[b]], paths[par[c]], next[b].packed, next[c].packed);
        } else {
            assert(key_before(next[b].packed, next[c].packed));
            lemma_walk_before_last(paths[par[b]], next[b].packed, next[c].packed);
        }
    }
}

/// Every walk one hop longer than the layer's, to a room first reached
/// there, comes no earlier than the walk its room was given.
proof fn lemma_next_least(
    m: Map<u16, Vec<RoomName>>,
    s: u16,
    d: nat,
    layer: Seq<RoomName>,
    paths: Seq<Seq<u16>>,
    next: Seq<RoomName>,
    next_paths: Seq<Seq<u16>>,
    par: Seq<int>,
    q: Seq<u16>,
)
    requires
        bfs_layer(m, s, d, layer, paths),
        next_paths.len() == next.len(),
        par.len() == next.len(),
        forall|b: int|
            0 <= b < next.len() ==> 0 <= #[trigger] par[b] < layer.len() && next_paths[b] == paths[par[b]].push(
                next[b].packed,
            ),
        forall|a: int, e: u16|
            0 <= a < layer.len() && #[trigger] exit_of(m, layer[a].packed, e) && !reach(m, s, d).contains(e)
                ==> exists|b: int| 0 <= b < next.len() && next[b].packed == e && par[b] <= a,
        is_walk(m, s, q),
        q.len() == d + 2,
        !reach(m, s, d).contains(q.last()),
    ensures
        exists|b: int|
            0 <= b < next.len() && next[b].packed == q.last() && (next_paths[b] == q || walk_before(next_paths[b], q)),
{
    let v = q.last();
    lemma_walk_last_hop(m, s, d, q);
    let qq = q.take(d + 1int);
    assert(first_reached_by(m, s, d, qq));
    let a = choose|a: int|
        0 <= a < layer.len() && layer[a].packed == qq.last() && (paths[a] == qq || walk_before(paths[a], qq));
    assert(exit_of(m, layer[a].packed, v));
    let b = choose|b: int| 0 <= b < next.len() && next[b].packed == v && par[b] <= a;
    assert(next_paths[b] == paths[par[b]].push(v));
    if par[b] < a {
        assert(walk_before(paths[par[b]], paths[a]));
        if paths[a] != qq {
            lemma_walk_before_trans(paths[par[b]], paths[a], qq);
        }
        lemma_walk_before_extend(paths[par[b]], qq, v, v);
    } else if paths[a] != qq {
        lemma_walk_before_extend(paths[a], qq, v, v);
    }
}

/// Scanning a whole layer builds the next one.
proof fn lemma_next_layer(
    m: Map<u16, Vec<RoomName>>,
    s: u16,
    d: nat,
    layer: Seq<RoomName>,
    paths: Seq<Seq<u16>>,
    next: Seq<RoomName>,
    next_paths: Seq<Seq<u16>>,
    par: Seq<int>,
)
    requires
        bfs_layer(m, s, d, layer, paths),
        next_paths.len() == next.len(),
        par.len() == next.len(),
        forall|b: int|
            0 <= b < next.len() ==> 0 <= #[trigger] par[b] < layer.len() && next_paths[b] == paths[par[b]].push(
                next[b].packed,
            ) && exit_of(m, layer[par[b]].packed, next[b].packed),
        forall|b: int, c: int| #![trigger par[b], par[c]] 0 <= b < c < next.len() ==> par[b] <= par[c],
        forall|b: int, c: int|
            #![trigger next[b], next[c]]
            0 <= b < c < next.len() && par[b] == par[c] ==> key_before(next[b].packed, next[c].packed),
        forall|a: int, e: u16|
            0 <= a < layer.len() && #[trigger] exit_of(m, layer[a].packed, e) && !reach(m, s, d).contains(e)
                ==> exists|b: int| 0 <= b < next.len() && next[b].packed == e && par[b] <= a,
    ensures
        bfs_layer(m, s, d + 1, next, next_paths),
{
    lemma_next_walks(m, s, d, layer, paths, next, next_paths, par);
    lemma_next_order(layer, paths, next, next_paths, par);
    assert forall|q: Seq<u16>| #[trigger] first_reached_by(m, s, d + 1, q) implies exists|b: int|
        0 <= b < next.len() && next[b].packed == q.last() && (next_paths[b] == q || walk_before(next_paths[b], q)) by {
        assert(((d + 1 - 1) as nat) == d);
        lemma_next_least(m, s, d, layer, paths, next, next_paths, par, q);
    }
}

proof fn lemma_reach_grows(rooms: Map<u16, Vec<RoomName>>, start: u16, j: nat, k: nat)
    requires
        j <= k,
    ensures
        reach(rooms, start, j).subset_of(reach(rooms, start, k)),
    decreases k - j,
{
    if j < k {
        lemma_reach_grows(rooms, start, j, (k - 1) as nat);
    }
}

/// The never-seen room nearest to `start` by cached exits: a breadth-first
/// walk of up to [`FRONTIER_SEARCH_RADIUS`] hops that steps only out of
/// seen rooms, visiting each room's exits in reading order. Of the unseen
/// rooms at the least depth, it returns the one whose earliest walk comes
/// first in reading order ([`first_frontier_walk`]), which is the one the
/// walk meets first. `rooms` maps each seen room (by packed name) to its
/// cached exits (empty when its exits are not known).
pub fn nearest_unseen_frontier(start: RoomName, rooms: &HashMap<u16, Vec<RoomName>>) -> (r: Option<RoomName>)
    ensures
        match r {
            Some(n) => {
                &&& !rooms@.contains_key(n.packed)
                &&& n != start
                &&& exists|k: nat|
                    1 <= k <= FRONTIER_SEARCH_RADIUS && #[trigger] reach(rooms@, start.packed, k).contains(n.packed)
                        && no_frontier_within(rooms@, start.packed, (k - 1) as nat) && exists|p: Seq<u16>|
                        #[trigger] first_frontier_walk(rooms@, start.packed, p) && p.len() == k + 1 && p.last()
                            == n.packed
            },
            None => no_frontier_within(rooms@, start.packed, FRONTIER_SEARCH_RADIUS as nat),
        },
{
    proof {
        assert(vstd::std_specs::hash::obeys_key_model::<u16>());
    }
    let ghost m = rooms@;
    let ghost s = start.packed;
    let mut visited: HashSet<u16> = HashSet::new();
    visited.insert(start.packed);
    let mut layer: Vec<RoomName> = Vec::new();
    layer.push(start);
    let mut depth: u32 = 0;
    let ghost mut paths: Seq<Seq<u16>> = seq![seq![start.packed]];
    proof {
        assert(visited@ =~= reach(m, s, 0));
        assert(layer@[0] == start);
        assert(is_walk(m, s, paths[0]));
        assert forall|q: Seq<u16>| #[trigger] first_reached_by(m, s, 0, q) implies exists|a: int|
            0 <= a < layer@.len() && layer@[a].packed == q.last() && (paths[a] == q || walk_before(paths[a], q)) by {
            assert(q =~= paths[0]);
        }
        assert(bfs_layer(m, s, 0, layer@, paths));
    }
    while depth < FRONTIER_SEARCH_RADIUS
        invariant
            depth <= FRONTIER_SEARCH_RADIUS,
            m == rooms@,
            s == start.packed,
            visited@ == reach(m, s, depth as nat),
            forall|i: int| 0 <= i < layer@.len() ==> visited@.contains((#[trigger] layer@[i]).packed),
            forall|p: u16|
                #[trigger] reach(m, s, depth as nat).contains(p) && !(depth > 0 && reach(
                    m,
                    s,
                    (depth - 1) as nat,
                ).contains(p)) ==> exists|i: int| 0 <= i < layer@.len() && layer@[i].packed == p,
            no_frontier_within(m, s, depth as nat),
            bfs_layer(m, s, depth as nat, layer@, paths),
        decreases FRONTIER_SEARCH_RADIUS - depth,
    {
        let ghost reach_d = reach(m, s, depth as nat);
        let ghost reach_next = reach(m, s, depth as nat + 1);
        proof {
            lemma_reach_grows(m, s, depth as nat, depth as nat + 1);
            lemma_reach_grows(m, s, 0, depth as nat);
            assert(reach(m, s, 0).contains(s));
        }
        let mut next: Vec<RoomName> = Vec::new();
        let ghost mut next_paths: Seq<Seq<u16>> = Seq::empty();
        let ghost mut par: Seq<int> = Seq::empty();
        let mut i: usize = 0;
        while i < layer.len()
            invariant
                0 <= i <= layer@.len(),
                depth < FRONTIER_SEARCH_RADIUS,
                m == rooms@,
                s == start.packed,
                reach_d == reach(m, s, depth as nat),
                reach_next == reach(m, s, depth as nat + 1),
                reach_d.subset_of(reach_next),
                reach_d.contains(s),
                reach_d.subset_of(visited@),
                visited@.subset_of(reach_next),
                forall|a: int| 0 <= a < layer@.len() ==> reach_d.contains((#[trigger] layer@[a]).packed),
                forall|u: u16| #[trigger] visited@.contains(u) && !reach_d.contains(u) ==> rooms@.contains_key(u),
                forall|a: int| 0 <= a < next@.len() ==> visited@.contains((#[trigger] next@[a]).packed),
                forall|u: u16|
                    #[trigger] visited@.contains(u) && !reach_d.contains(u) ==> exists|a: int|
                        0 <= a < next@.len() && next@[a].packed == u,
                forall|a: int, n: u16|
                    0 <= a < i && #[trigger] exit_of(m, layer@[a].packed, n) ==> visited@.contains(n),
                no_frontier_within(m, s, depth as nat),
                bfs_layer(m, s, depth as nat, layer@, paths),
                next_paths.len() == next@.len(),
                par.len() == next@.len(),
                forall|b: int|
                    0 <= b < next@.len() ==> 0 <= #[trigger] par[b] < i && next_paths[b] == paths[par[b]].push(
                        next@[b].packed,
                    ) && exit_of(m, layer@[par[b]].packed, next@[b].packed),
                forall|b: int, c: int| #![trigger par[b], par[c]] 0 <= b < c < next@.len() ==> par[b] <= par[c],
                forall|b: int, c: int|
                    #![trigger next@[b], next@[c]]
                    0 <= b < c < next@.len() && par[b] == par[c] ==> key_before(next@[b].packed, next@[c].packed),
                forall|a: int, e: u16|
                    0 <= a < i && #[trigger] exit_of(m, layer@[a].packed, e) && !reach_d.contains(e) ==> exists|b: int|
                        0 <= b < next@.len() && next@[b].packed == e && par[b] <= a,
            decreases layer@.len() - i,
        {
            let room = layer[i];
            let ghost visited_before = visited@;
            let ghost next_before = next@;
            match rooms.get(&room.packed) {
                None => {
                    proof {
                        assert(!m.contains_key(room.packed));
                    }
                },
                Some(exits) => {
                    let ordered = sorted_rooms(exits);
                    let found = expand_exits(&ordered, rooms, &mut visited, &mut next);
                    match found {
                        Some(n) => {
                            proof {
                                assert(exits@.contains(n));
                                let j = choose|j: int| 0 <= j < exits@.len() && exits@[j] == n;
                                assert(exit_of(m, room.packed, n.packed));
                                assert(reach(m, s, (depth + 1) as nat).contains(n.packed));
                            }
                            proof {
                                assert forall|u: u16| #[trigger] visited_before.contains(u) && u != s implies m.contains_key(
                                    u,
                                ) by {
                                    if reach_d.contains(u) {
                                        assert(reach(m, s, depth as nat).contains(u));
                                    }
                                }
                                lemma_found_first(m, s, depth as nat, layer@, paths, i as int, visited_before, ordered@, n);
                                let p = paths[i as int].push(n.packed);
                                assert(first_frontier_walk(rooms@, start.packed, p) && p.len() == (depth + 1) as nat + 1
                                    && p.last() == n.packed);
                            }
                            return Some(n);
                        },
                        None => {
                            proof {
                                assert forall|nn: u16| #[trigger] exit_of(m, room.packed, nn) implies visited@.contains(nn) by {
                                    let j = choose|j: int| 0 <= j < m[room.packed]@.len() && m[room.packed]@[j].packed == nn;
                                    assert(exits@.contains(exits@[j]));
                                    assert(ordered@.contains(exits@[j]));
                                    let b = choose|b: int| 0 <= b < ordered@.len() && ordered@[b] == exits@[j];
                                    assert(visited@.contains(ordered@[b].packed));
                                }
                                assert forall|u: u16| #[trigger] visited@.contains(u) && !visited_before.contains(u) implies reach_next.contains(u) by {
                                    let b = choose|b: int| 0 <= b < ordered@.len() && ordered@[b].packed == u;
                                    assert(ordered@.contains(ordered@[b]));
                                    assert(exits@.contains(ordered@[b]));
                                    let j = choose|j: int| 0 <= j < exits@.len() && exits@[j] == ordered@[b];
                                    assert(m[room.packed]@[j].packed == u);
                                    assert(exit_of(m, room.packed, u));
                                }
                                assert forall|u: u16|
                                    #[trigger] visited@.contains(u) && !reach_d.contains(u) implies exists|a: int|
                                        0 <= a < next@.len() && next@[a].packed == u by {
                                    if !visited_before.contains(u) {
                                    } else {
                                        let a = choose|a: int| 0 <= a < next_before.len() && next_before[a].packed == u;
                                        assert(next@[a] == next_before[a]);
                                    }
                                }
                                assert forall|a: int| 0 <= a < next@.len() implies visited@.contains((#[trigger] next@[a]).packed) by {
                                    if a < next_before.len() {
                                        assert(next@[a] == next_before[a]);
                                    }
                                }
                                let added = (next@.len() - next_before.len()) as nat;
                                let par0 = par;
                                let np0 = next_paths;
                                let nb = next_before.len() as int;
                                par = par0 + Seq::new(added, |t: int| i as int);
                                next_paths = np0 + Seq::new(
                                    added,
                                    |t: int| paths[i as int].push(next@[nb + t].packed),
                                );
                                assert forall|b: int| 0 <= b < next@.len() implies 0 <= #[trigger] par[b] < i + 1
                                    && next_paths[b] == paths[par[b]].push(next@[b].packed) && exit_of(
                                    m,
                                    layer@[par[b]].packed,
                                    next@[b].packed,
                                ) by {
                                    if b < nb {
                                        assert(par[b] == par0[b]);
                                        assert(next_paths[b] == np0[b]);
                                        assert(next@[b] == next_before[b]);
                                    } else {
                                        assert(par[b] == i);
                                        assert(next_paths[b] == paths[i as int].push(next@[nb + (b - nb)].packed));
                                        assert(ordered@.contains(next@[b]));
                                        assert(exits@.contains(next@[b]));
                                        let jj = choose|jj: int| 0 <= jj < exits@.len() && exits@[jj] == next@[b];
                                        assert(m[room.packed]@[jj].packed == next@[b].packed);
                                        assert(exit_of(m, room.packed, next@[b].packed));
                                    }
                                }
                                assert forall|b: int, c: int| #![trigger par[b], par[c]] 0 <= b < c < next@.len() implies par[b]
                                    <= par[c] by {
                                    if c < nb {
                                        assert(par[b] == par0[b]);
                                        assert(par[c] == par0[c]);
                                    } else if b < nb {
                                        assert(par[b] == par0[b]);
                                        assert(par[c] == i);
                                    } else {
                                        assert(par[b] == i);
                                        assert(par[c] == i);
                                    }
                                }
                                assert forall|b: int, c: int|
                                    #![trigger next@[b], next@[c]]
                                    0 <= b < c < next@.len() && par[b] == par[c] implies key_before(
                                    next@[b].packed,
                                    next@[c].packed,
                                ) by {
                                    if c < nb {
                                        assert(par[b] == par0[b]);
                                        assert(par[c] == par0[c]);
                                        assert(next@[b] == next_before[b]);
                                        assert(next@[c] == next_before[c]);
                                    } else if b < nb {
                                        assert(par[b] == par0[b]);
                                        assert(par[c] == i);
                                    }
                                }
                                assert forall|a: int, e: u16|
                                    0 <= a < i + 1 && #[trigger] exit_of(m, layer@[a].packed, e) && !reach_d.contains(e)
                                        implies exists|b: int| 0 <= b < next@.len() && next@[b].packed == e && par[b] <= a by {
                                    if a < i {
                                        let b = choose|b: int|
                                            0 <= b < next_before.len() && next_before[b].packed == e && par0[b] <= a;
                                        assert(next@[b] == next_before[b]);
                                        assert(par[b] == par0[b]);
                                    } else {
                                        assert(visited@.contains(e));
                                        if visited_before.contains(e) {
                                            let b = choose|b: int| 0 <= b < next_before.len() && next_before[b].packed == e;
                                            assert(next@[b] == next_before[b]);
                                            assert(par[b] == par0[b]);
                                        } else {
                                            assert(m.contains_key(e));
                                            let b = choose|b: int| nb <= b < next@.len() && next@[b].packed == e;
                                            assert(par[b] == i);
                                        }
                                    }
                                }
                            }
                        },
                    }
                },
            }
            proof {
                assert forall|a: int, n: u16|
                    0 <= a < i + 1 && #[trigger] exit_of(m, layer@[a].packed, n) implies visited@.contains(n) by {
                    if a < i {
                        assert(visited_before.contains(n));
                    }
                }
            }
            i += 1;
        }
        proof {
            assert forall|u: u16| #[trigger] reach_next.contains(u) implies visited@.contains(u) by {
                if !reach_d.contains(u) {
                    let p = choose|p: u16| reach_d.contains(p) && #[trigger] exit_of(m, p, u);
                    if depth > 0 && reach(m, s, (depth - 1) as nat).contains(p) {
                        assert(reach(m, s, depth as nat).contains(u));
                    } else {
                        let a = choose|a: int| 0 <= a < layer@.len() && layer@[a].packed == p;
                        assert(exit_of(m, layer@[a].packed, u));
                    }
                }
            }
            assert(visited@ =~= reach_next);
            assert forall|u: u16| #[trigger] reach(m, s, (depth + 1) as nat).contains(u) && u != s implies m.contains_key(u) by {
                if reach_d.contains(u) {
                    assert(reach(m, s, depth as nat).contains(u));
                }
            }
            assert forall|p: u16|
                #[trigger] reach(m, s, (depth + 1) as nat).contains(p) && !((depth + 1) > 0 && reach(
                    m,
                    s,
                    depth as nat,
                ).contains(p)) implies exists|a: int| 0 <= a < next@.len() && next@[a].packed == p by {
                assert(visited@.contains(p));
            }
        }
        proof {
            lemma_next_layer(m, s, depth as nat, layer@, paths, next@, next_paths, par);
            paths = next_paths;
        }
        layer = next;
        depth += 1;
    }
    None
}


/// Intel this fresh clears a room's unreachable backoff.
pub const UNREACHABLE_FRESH_CLEAR_TICKS: u32 = 10;

/// Room hops within which a home can send a scout to strategic demand.
pub const SCOUT_STRATEGIC_REACH: u32 = 10;

/// A room seen within [`UNREACHABLE_FRESH_CLEAR_TICKS`] is reachable after
/// all (`intel_age` is `None` for a room never seen).
pub fn seen_again(intel_age: Option<u32>) -> (r: bool)
    ensures
        r == match intel_age {
            Some(age) => age <= UNREACHABLE_FRESH_CLEAR_TICKS,
            None => false,
        },
{
    match intel_age {
        Some(age) => age <= UNREACHABLE_FRESH_CLEAR_TICKS,
        None => false,
    }
}

/// Room `i` of `rooms` may be picked: not excluded, and not `from` itself
/// when `skip_from`.
pub open spec fn closest_eligible(from: RoomName, rooms: Seq<RoomName>, exclude: Seq<RoomName>, skip_from: bool, i: int) -> bool {
    &&& 0 <= i < rooms.len()
    &&& !(skip_from && rooms[i] == from)
    &&& !exclude.contains(rooms[i])
}

/// Room `a` is closer to `from` than `b`: fewer hops, then reading order.
pub open spec fn closer_to(from: RoomName, a: RoomName, b: RoomName) -> bool {
    spec_room_distance(from, a) < spec_room_distance(from, b) || (spec_room_distance(from, a) == spec_room_distance(
        from,
        b,
    ) && room_before(a, b))
}

/// The room of `rooms` closest to `from` (fewest hops, then reading
/// order; the first on a full tie) among those not in `exclude` and, with
/// `skip_from`, other than `from`.
pub fn closest_room(from: RoomName, rooms: &[RoomName], exclude: &[RoomName], skip_from: bool) -> (r: Option<usize>)
    ensures
        r is None <==> forall|i: int| !#[trigger] closest_eligible(from, rooms@, exclude@, skip_from, i),
        r matches Some(k) ==> {
            &&& closest_eligible(from, rooms@, exclude@, skip_from, k as int)
            &&& forall|j: int|
                #[trigger] closest_eligible(from, rooms@, exclude@, skip_from, j) ==> !closer_to(
                    from,
                    rooms@[j],
                    rooms@[k as int],
                )
            &&& forall|j: int|
                0 <= j < k && #[trigger] closest_eligible(from, rooms@, exclude@, skip_from, j) ==> closer_to(
                    from,
                    rooms@[k as int],
                    rooms@[j],
                )
        },
{
    let mut best: Option<usize> = None;
    let mut i: usize = 0;
    while i < rooms.len()
        invariant
            0 <= i <= rooms@.len(),
            best is None <==> forall|a: int| 0 <= a < i ==> !#[trigger] closest_eligible(from, rooms@, exclude@, skip_from, a),
            best matches Some(k) ==> {
                &&& k < i
                &&& closest_eligible(from, rooms@, exclude@, skip_from, k as int)
                &&& forall|a: int|
                    0 <= a < i && #[trigger] closest_eligible(from, rooms@, exclude@, skip_from, a) ==> !closer_to(
                        from,
                        rooms@[a],
                        rooms@[k as int],
                    )
                &&& forall|a: int|
                    0 <= a < k && #[trigger] closest_eligible(from, rooms@, exclude@, skip_from, a) ==> closer_to(
                        from,
                        rooms@[k as int],
                        rooms@[a],
                    )
            },
        decreases rooms@.len() - i,
    {
        let room = rooms[i];
        let eligible = !(skip_from && room == from) && !contains_room_name(exclude, room);
        if eligible {
            let better = match best {
                None => true,
                Some(k) => {
                    let d = room_distance(from, room);
                    let dk = room_distance(from, rooms[k]);
                    d < dk || (d == dk && room_name_lt(room, rooms[k]))
                },
            };
            if better {
                proof {
                    if let Some(k) = best {
                        assert forall|a: int|
                            0 <= a < i + 1 && #[trigger] closest_eligible(from, rooms@, exclude@, skip_from, a)
                                implies !closer_to(from, rooms@[a], room) by {
                            if a < i {
                                assert(!closer_to(from, rooms@[a], rooms@[k as int]));
                            }
                        }
                    }
                }
                best = Some(i);
            } else {
                proof {
                    let k = best->0;
                    assert(!closer_to(from, room, rooms@[k as int]));
                    if room != rooms@[k as int] {
                        lemma_room_order_total(room, rooms@[k as int]);
                    }
                }
            }
        }
        proof {
            assert(eligible == closest_eligible(from, rooms@, exclude@, skip_from, i as int));
        }
        i += 1;
    }
    best
}

fn contains_room_name(rooms: &[RoomName], room: RoomName) -> (r: bool)
    ensures
        r == rooms@.contains(room),
{
    let mut i: usize = 0;
    while i < rooms.len()
        invariant
            0 <= i <= rooms@.len(),
            forall|a: int| 0 <= a < i ==> rooms@[a] != room,
        decreases rooms@.len() - i,
    {
        if rooms[i] == room {
            assert(rooms@[i as int] == room);
            return true;
        }
        i += 1;
    }
    false
}

/// Some home is within [`SCOUT_STRATEGIC_REACH`] hops of `room`.
pub fn within_strategic_reach(room: RoomName, homes: &[RoomName]) -> (r: bool)
    ensures
        r == exists|i: int| 0 <= i < homes@.len() && spec_room_distance(room, #[trigger] homes@[i]) <= SCOUT_STRATEGIC_REACH,
{
    let mut i: usize = 0;
    while i < homes.len()
        invariant
            0 <= i <= homes@.len(),
            forall|a: int| 0 <= a < i ==> !(spec_room_distance(room, #[trigger] homes@[a]) <= SCOUT_STRATEGIC_REACH),
        decreases homes@.len() - i,
    {
        if room_distance(room, homes[i]) <= SCOUT_STRATEGIC_REACH {
            return true;
        }
        i += 1;
    }
    false
}


/// Ticks an insertion adds (0 for none).
pub open spec fn added_ticks(o: Option<(u32, usize)>) -> u32 {
    match o {
        Some((d, _)) => d,
        None => 0,
    }
}

/// The scout whose cheapest insertion adds the fewest ticks (the first on
/// ties), given each scout's `(delta, position)` or `None` where the entry
/// does not fit its remaining life.
pub fn cheapest_scout(per_scout: &[Option<(u32, usize)>]) -> (r: Option<usize>)
    ensures
        r is None <==> forall|i: int| 0 <= i < per_scout@.len() ==> (#[trigger] per_scout@[i]) is None,
        r matches Some(k) ==> {
            &&& k < per_scout@.len()
            &&& per_scout@[k as int] is Some
            &&& forall|i: int|
                0 <= i < per_scout@.len() && (#[trigger] per_scout@[i]) is Some ==> added_ticks(per_scout@[k as int])
                    <= added_ticks(per_scout@[i])
            &&& forall|i: int|
                0 <= i < k && (#[trigger] per_scout@[i]) is Some ==> added_ticks(per_scout@[k as int]) < added_ticks(per_scout@[i])
        },
{
    let mut best: Option<usize> = None;
    let mut i: usize = 0;
    while i < per_scout.len()
        invariant
            0 <= i <= per_scout@.len(),
            best is None <==> forall|a: int| 0 <= a < i ==> (#[trigger] per_scout@[a]) is None,
            best matches Some(k) ==> {
                &&& k < i
                &&& per_scout@[k as int] is Some
                &&& forall|a: int|
                    0 <= a < i && (#[trigger] per_scout@[a]) is Some ==> added_ticks(per_scout@[k as int])
                        <= added_ticks(per_scout@[a])
                &&& forall|a: int|
                    0 <= a < k && (#[trigger] per_scout@[a]) is Some ==> added_ticks(per_scout@[k as int]) < added_ticks(per_scout@[a])
            },
        decreases per_scout@.len() - i,
    {
        if let Some((delta, _)) = per_scout[i] {
            let better = match best {
                None => true,
                Some(k) => match per_scout[k] {
                    Some((d, _)) => delta < d,
                    None => true,
                },
            };
            if better {
                best = Some(i);
            }
        }
        i += 1;
    }
    best
}

} // verus!
