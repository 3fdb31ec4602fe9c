//! Candidate-room discovery: a breadth-first walk out from the home rooms
//! over room exits, one hop per level. Each room the walk reaches is given
//! to the candidate judgment once; a judged room is visited at the level it
//! was first reached, with the homes it was reached from, and expands the
//! walk if the judgment lets it. Rooms the judgment knows nothing about are
//! reported as unknown, with the level and homes of the last level they
//! were reached at.
//!
//! `exits` maps a room (by packed name) to the exits the walk may take
//! from it; `judged` maps a room to its judgment `(viable, can_expand)`,
//! and lacks the rooms the judgment knows nothing about. Homes are named by
//! their position among the seeds; a home set is a mask over the seeds.
use vstd::prelude::*;
use std::collections::{HashMap, HashSet};
use crate::geometry::RoomName;
use crate::scoutassignment::exit_of;

verus! {

broadcast use vstd::std_specs::hash::group_hash_axioms;

/// The walk after a level: the rooms visited so far, the rooms first
/// visited at this level, and the home masks of the rooms reached at this
/// level.
pub struct GatherLevel {
    pub visited: Set<u16>,
    pub newly: Set<u16>,
    pub homes: Map<u16, Seq<bool>>,
}

/// The seed rooms.
pub open spec fn seed_set(seeds: Seq<RoomName>) -> Set<u16> {
    Set::new(|k: u16| exists|h: int| 0 <= h < seeds.len() && (#[trigger] seeds[h]).packed == k)
}

/// A room visited at level `lvl` expands the walk: seeds always, other
/// rooms when their judgment lets them.
pub open spec fn expands(judged: Map<u16, (bool, bool)>, lvl: nat, k: u16) -> bool {
    lvl == 0 || (judged.contains_key(k) && judged[k].1)
}

/// Room `k`, first visited at level `lvl`, leads the walk on to `e`.
pub open spec fn feeds(
    l: GatherLevel,
    judged: Map<u16, (bool, bool)>,
    exits: Map<u16, Vec<RoomName>>,
    lvl: nat,
    k: u16,
    e: u16,
) -> bool {
    l.newly.contains(k) && expands(judged, lvl, k) && exit_of(exits, k, e)
}

/// The rooms the walk reaches at the level after `lvl`.
pub open spec fn frontier_of(
    l: GatherLevel,
    judged: Map<u16, (bool, bool)>,
    exits: Map<u16, Vec<RoomName>>,
    lvl: nat,
) -> Set<u16> {
    Set::new(|e: u16| exists|k: u16| #[trigger] feeds(l, judged, exits, lvl, k, e))
}

/// The homes a room reached at the level after `lvl` is reached from: the
/// union of the homes of the rooms that lead to it.
pub open spec fn frontier_homes(
    l: GatherLevel,
    judged: Map<u16, (bool, bool)>,
    exits: Map<u16, Vec<RoomName>>,
    lvl: nat,
    e: u16,
    n: nat,
) -> Seq<bool> {
    Seq::new(n, |h: int| exists|k: u16| #[trigger] feeds(l, judged, exits, lvl, k, e) && l.homes[k][h])
}

/// The walk after level `lvl`.
pub open spec fn gather_level(
    seeds: Seq<RoomName>,
    judged: Map<u16, (bool, bool)>,
    exits: Map<u16, Vec<RoomName>>,
    lvl: nat,
) -> GatherLevel
    decreases lvl,
{
    if lvl == 0 {
        GatherLevel {
            visited: seed_set(seeds),
            newly: seed_set(seeds),
            homes: Map::new(
                |k: u16| seed_set(seeds).contains(k),
                |k: u16| Seq::new(seeds.len(), |h: int| seeds[h].packed == k),
            ),
        }
    } else {
        let l = gather_level(seeds, judged, exits, (lvl - 1) as nat);
        let f = frontier_of(l, judged, exits, (lvl - 1) as nat);
        let nv = Set::new(|k: u16| f.contains(k) && !l.visited.contains(k) && judged.contains_key(k));
        GatherLevel {
            visited: l.visited.union(nv),
            newly: nv,
            homes: Map::new(
                |k: u16| f.contains(k),
                |k: u16| frontier_homes(l, judged, exits, (lvl - 1) as nat, k, seeds.len()),
            ),
        }
    }
}

/// At level `lvl` the walk reaches `k`, which it has not visited and the
/// judgment knows nothing about.
pub open spec fn unknown_at(
    seeds: Seq<RoomName>,
    judged: Map<u16, (bool, bool)>,
    exits: Map<u16, Vec<RoomName>>,
    lvl: nat,
    k: u16,
) -> bool {
    &&& lvl >= 1
    &&& gather_level(seeds, judged, exits, lvl).homes.contains_key(k)
    &&& !gather_level(seeds, judged, exits, (lvl - 1) as nat).visited.contains(k)
    &&& !judged.contains_key(k)
}

/// A room the walk reported, with its level and home mask.
#[derive(Clone, Debug)]
pub struct GatheredRoom {
    pub room: RoomName,
    pub distance: u32,
    pub homes: Vec<bool>,
}

/// What the walk found: the viable candidates, and the rooms the judgment
/// knows nothing about.
#[derive(Clone, Debug)]
pub struct GatheredRooms {
    pub candidates: Vec<GatheredRoom>,
    pub unknown: Vec<GatheredRoom>,
}

/// The rooms first visited at a level, with their home masks, match the
/// level.
pub open spec fn newly_matches(newly: Seq<(u16, Vec<bool>)>, l: GatherLevel, n: nat) -> bool {
    &&& forall|a: int, b: int| 0 <= a < b < newly.len() ==> newly[a].0 != newly[b].0
    &&& forall|a: int|
        0 <= a < newly.len() ==> l.newly.contains(#[trigger] newly[a].0) && newly[a].1@ == l.homes[newly[a].0]
            && newly[a].1@.len() == n
    &&& forall|k: u16| #[trigger] l.newly.contains(k) ==> exists|a: int| 0 <= a < newly.len() && newly[a].0 == k
}

/// Entry `a` of `newly` leads on to `e`.
pub open spec fn entry_feeds(
    newly: Seq<(u16, Vec<bool>)>,
    judged: Map<u16, (bool, bool)>,
    exits: Map<u16, Vec<RoomName>>,
    first: bool,
    a: int,
    e: u16,
) -> bool {
    0 <= a < newly.len() && (first || (judged.contains_key(newly[a].0) && judged[newly[a].0].1)) && exit_of(
        exits,
        newly[a].0,
        e,
    )
}

fn expands_exec(judged: &HashMap<u16, (bool, bool)>, first: bool, k: u16) -> (r: bool)
    ensures
        r == (first || (judged@.contains_key(k) && judged@[k].1)),
{
    proof {
        assert(vstd::std_specs::hash::obeys_key_model::<u16>());
    }
    if first {
        return true;
    }
    match judged.get(&k) {
        Some(j) => j.1,
        None => false,
    }
}

/// The rooms the entries of `newly` lead on to, each once.
fn frontier_keys(
    newly: &Vec<(u16, Vec<bool>)>,
    exits: &HashMap<u16, Vec<RoomName>>,
    judged: &HashMap<u16, (bool, bool)>,
    first: bool,
) -> (out: Vec<u16>)
    ensures
        forall|a: int, b: int| 0 <= a < b < out@.len() ==> out@[a] != out@[b],
        forall|e: u16|
            out@.contains(e) <==> exists|a: int| #[trigger] entry_feeds(newly@, judged@, exits@, first, a, e),
{
    proof {
        assert(vstd::std_specs::hash::obeys_key_model::<u16>());
    }
    let mut seen: HashSet<u16> = HashSet::new();
    let mut out: Vec<u16> = Vec::new();
    let mut a: usize = 0;
    while a < newly.len()
        invariant
            0 <= a <= newly@.len(),
            forall|x: int, y: int| 0 <= x < y < out@.len() ==> out@[x] != out@[y],
            forall|e: u16| #[trigger] seen@.contains(e) <==> out@.contains(e),
            forall|e: u16|
                out@.contains(e) <==> exists|b: int| 0 <= b < a && #[trigger] entry_feeds(newly@, judged@, exits@, first, b, e),
        decreases newly@.len() - a,
    {
        let k = newly[a].0;
        if expands_exec(judged, first, k) {
            match exits.get(&k) {
                Some(ex) => {
                    let ghost out0 = out@;
                    let mut j: usize = 0;
                    while j < ex.len()
                        invariant
                            0 <= j <= ex@.len(),
                            0 <= a < newly@.len(),
                            k == newly@[a as int].0,
                            exits@.contains_key(k),
                            ex@ == exits@[k]@,
                            first || (judged@.contains_key(k) && judged@[k].1),
                            forall|x: int, y: int| 0 <= x < y < out@.len() ==> out@[x] != out@[y],
                            forall|e: u16| #[trigger] seen@.contains(e) <==> out@.contains(e),
                            forall|e: u16|
                                out@.contains(e) <==> (out0.contains(e) || exists|i: int|
                                    0 <= i < j && (#[trigger] ex@[i]).packed == e),
                        decreases ex@.len() - j,
                    {
                        let e = ex[j].packed;
                        let ghost before = out@;
                        if !seen.contains(&e) {
                            seen.insert(e);
                            out.push(e);
                            proof {
                                assert forall|x: int, y: int| 0 <= x < y < out@.len() implies out@[x] != out@[y] by {
                                    if y == out@.len() - 1 {
                                        assert(!before.contains(e));
                                        assert(out@[x] == before[x]);
                                    }
                                }
                                assert forall|u: u16| out@.contains(u) <==> (before.contains(u) || u == e) by {
                                    if out@.contains(u) {
                                        let x = choose|x: int| 0 <= x < out@.len() && out@[x] == u;
                                        if x < before.len() {
                                            assert(before[x] == u);
                                        }
                                    }
                                    if before.contains(u) {
                                        let x = choose|x: int| 0 <= x < before.len() && before[x] == u;
                                        assert(out@[x] == u);
                                    }
                                    assert(out@[out@.len() - 1] == e);
                                }
                            }
                        }
                        proof {
                            assert(out@.contains(e));
                            assert(forall|u: u16| #[trigger] out@.contains(u) ==> before.contains(u) || u == e);
                            assert(forall|u: u16| #[trigger] before.contains(u) ==> out@.contains(u));
                            assert(ex@[j as int].packed == e);
                            assert forall|u: u16|
                                #![trigger out@.contains(u)]
                                out@.contains(u) <==> (out0.contains(u) || exists|i: int|
                                    0 <= i < j + 1 && (#[trigger] ex@[i]).packed == u) by {
                                if out@.contains(u) {
                                    if u == e {
                                        assert(ex@[j as int].packed == u);
                                    } else {
                                        assert(before.contains(u));
                                        if !out0.contains(u) {
                                            let i = choose|i: int| 0 <= i < j && (#[trigger] ex@[i]).packed == u;
                                            assert(0 <= i < j + 1 && ex@[i].packed == u);
                                        }
                                    }
                                }
                                if out0.contains(u) {
                                    assert(before.contains(u));
                                }
                                if exists|i: int| 0 <= i < j + 1 && (#[trigger] ex@[i]).packed == u {
                                    let i = choose|i: int| 0 <= i < j + 1 && (#[trigger] ex@[i]).packed == u;
                                    if i < j {
                                        assert(before.contains(u));
                                    } else {
                                        assert(u == e);
                                    }
                                }
                            }
                        }
                        j += 1;
                    }
                    proof {
                        assert forall|e: u16|
                            out@.contains(e) <==> exists|b: int|
                                0 <= b < a + 1 && #[trigger] entry_feeds(newly@, judged@, exits@, first, b, e) by {
                            if out0.contains(e) {
                                let b = choose|b: int|
                                    0 <= b < a && #[trigger] entry_feeds(newly@, judged@, exits@, first, b, e);
                            }
                            if exists|i: int| 0 <= i < ex@.len() && (#[trigger] ex@[i]).packed == e {
                                let i = choose|i: int| 0 <= i < ex@.len() && (#[trigger] ex@[i]).packed == e;
                                assert(exits@[k]@[i].packed == e);
                                assert(entry_feeds(newly@, judged@, exits@, first, a as int, e));
                            }
                            if exists|b: int| 0 <= b < a + 1 && #[trigger] entry_feeds(newly@, judged@, exits@, first, b, e) {
                                let b = choose|b: int|
                                    0 <= b < a + 1 && #[trigger] entry_feeds(newly@, judged@, exits@, first, b, e);
                                if b == a {
                                    let i = choose|i: int|
                                        0 <= i < exits@[k]@.len() && (#[trigger] exits@[k]@[i]).packed == e;
                                    assert(ex@[i].packed == e);
                                }
                            }
                        }
                    }
                },
                None => {
                    proof {
                        assert forall|e: u16|
                            out@.contains(e) <==> exists|b: int|
                                0 <= b < a + 1 && #[trigger] entry_feeds(newly@, judged@, exits@, first, b, e) by {
                            if exists|b: int| 0 <= b < a + 1 && #[trigger] entry_feeds(newly@, judged@, exits@, first, b, e) {
                                let b = choose|b: int|
                                    0 <= b < a + 1 && #[trigger] entry_feeds(newly@, judged@, exits@, first, b, e);
                                assert(b != a);
                            }
                        }
                    }
                },
            }
        } else {
            proof {
                assert forall|e: u16|
                    out@.contains(e) <==> exists|b: int|
                        0 <= b < a + 1 && #[trigger] entry_feeds(newly@, judged@, exits@, first, b, e) by {
                    if exists|b: int| 0 <= b < a + 1 && #[trigger] entry_feeds(newly@, judged@, exits@, first, b, e) {
                        let b = choose|b: int|
                            0 <= b < a + 1 && #[trigger] entry_feeds(newly@, judged@, exits@, first, b, e);
                        assert(b != a);
                    }
                }
            }
        }
        a += 1;
    }
    out
}

/// Whether `e` is among the exits of `k`.
fn exits_to(exits: &HashMap<u16, Vec<RoomName>>, k: u16, e: u16) -> (r: bool)
    ensures
        r == exit_of(exits@, k, e),
{
    proof {
        assert(vstd::std_specs::hash::obeys_key_model::<u16>());
    }
    match exits.get(&k) {
        None => false,
        Some(ex) => {
            let mut j: usize = 0;
            while j < ex.len()
                invariant
                    0 <= j <= ex@.len(),
                    exits@.contains_key(k),
                    ex@ == exits@[k]@,
                    forall|i: int| 0 <= i < j ==> (#[trigger] ex@[i]).packed != e,
                decreases ex@.len() - j,
            {
                if ex[j].packed == e {
                    assert(exits@[k]@[j as int].packed == e);
                    return true;
                }
                j += 1;
            }
            false
        },
    }
}

/// The home mask of `e`: the union of the masks of the entries of `newly`
/// that lead on to it.
fn frontier_mask(
    newly: &Vec<(u16, Vec<bool>)>,
    exits: &HashMap<u16, Vec<RoomName>>,
    judged: &HashMap<u16, (bool, bool)>,
    first: bool,
    e: u16,
    n: usize,
) -> (out: Vec<bool>)
    requires
        forall|a: int| 0 <= a < newly@.len() ==> (#[trigger] newly@[a]).1@.len() == n,
    ensures
        out@.len() == n,
        forall|h: int|
            0 <= h < n ==> out@[h] == exists|a: int|
                #[trigger] entry_feeds(newly@, judged@, exits@, first, a, e) && newly@[a].1@[h],
{
    let mut out: Vec<bool> = Vec::new();
    let mut h: usize = 0;
    while h < n
        invariant
            0 <= h <= n,
            out@.len() == h,
            forall|x: int| 0 <= x < h ==> !out@[x],
        decreases n - h,
    {
        out.push(false);
        h += 1;
    }
    let mut a: usize = 0;
    while a < newly.len()
        invariant
            0 <= a <= newly@.len(),
            out@.len() == n,
            forall|b: int| 0 <= b < newly@.len() ==> (#[trigger] newly@[b]).1@.len() == n,
            forall|x: int|
                0 <= x < n ==> out@[x] == exists|b: int|
                    0 <= b < a && #[trigger] entry_feeds(newly@, judged@, exits@, first, b, e) && newly@[b].1@[x],
        decreases newly@.len() - a,
    {
        let k = newly[a].0;
        let feeds = expands_exec(judged, first, k) && exits_to(exits, k, e);
        assert(feeds == entry_feeds(newly@, judged@, exits@, first, a as int, e));
        let ghost prev = out@;
        if feeds {
            let mask = &newly[a].1;
            let ghost before = out@;
            let mut x: usize = 0;
            while x < n
                invariant
                    0 <= x <= n,
                    out@.len() == n,
                    mask@.len() == n,
                    mask@ == newly@[a as int].1@,
                    forall|y: int| 0 <= y < x ==> out@[y] == (before[y] || mask@[y]),
                    forall|y: int| x <= y < n ==> out@[y] == before[y],
                decreases n - x,
            {
                let v = out[x] || mask[x];
                out.set(x, v);
                x += 1;
            }
        }
        proof {
            assert forall|x: int| 0 <= x < n implies out@[x] == exists|b: int|
                0 <= b < a + 1 && #[trigger] entry_feeds(newly@, judged@, exits@, first, b, e) && newly@[b].1@[x] by {
                assert(out@[x] == (prev[x] || (feeds && newly@[a as int].1@[x])));
                if prev[x] {
                    let b = choose|b: int|
                        0 <= b < a && #[trigger] entry_feeds(newly@, judged@, exits@, first, b, e) && newly@[b].1@[x];
                    assert(0 <= b < a + 1);
                }
                if feeds && newly@[a as int].1@[x] {
                    assert(entry_feeds(newly@, judged@, exits@, first, a as int, e));
                }
                if exists|b: int| 0 <= b < a + 1 && #[trigger] entry_feeds(newly@, judged@, exits@, first, b, e)
                    && newly@[b].1@[x] {
                    let b = choose|b: int|
                        0 <= b < a + 1 && #[trigger] entry_feeds(newly@, judged@, exits@, first, b, e) && newly@[b].1@[x];
                    if b < a {
                        assert(prev[x]);
                    }
                }
            }
        }
        a += 1;
    }
    out
}

/// A set of rooms holds at most every packed name once.
proof fn lemma_room_set_bound(s: Set<u16>)
    requires
        s.finite(),
    ensures
        s.len() <= 65536,
{
    let f = |x: u16| x as int;
    let m = s.map(f);
    assert(vstd::relations::injective_on(f, s));
    vstd::set_lib::lemma_map_size(s, m, f);
    vstd::set_lib::lemma_int_range(0, 65536);
    assert forall|y: int| m.contains(y) implies vstd::set_lib::set_int_range(0, 65536).contains(y) by {
        let x = choose|x: u16| s.contains(x) && f(x) == y;
    }
    vstd::set_lib::lemma_len_subset(m, vstd::set_lib::set_int_range(0, 65536));
}

/// The entries of a level's first visits lead exactly where the level's
/// rooms do, with the same homes.
proof fn lemma_entries_feed(
    newly: Seq<(u16, Vec<bool>)>,
    l: GatherLevel,
    judged: Map<u16, (bool, bool)>,
    exits: Map<u16, Vec<RoomName>>,
    lvl: nat,
    first: bool,
    e: u16,
    n: nat,
)
    requires
        newly_matches(newly, l, n),
        first == (lvl == 0),
    ensures
        (exists|a: int| #[trigger] entry_feeds(newly, judged, exits, first, a, e)) == frontier_of(
            l,
            judged,
            exits,
            lvl,
        ).contains(e),
        forall|h: int|
            0 <= h < n ==> (exists|a: int| #[trigger] entry_feeds(newly, judged, exits, first, a, e) && newly[a].1@[h])
                == frontier_homes(l, judged, exits, lvl, e, n)[h],
{
    if exists|a: int| #[trigger] entry_feeds(newly, judged, exits, first, a, e) {
        let a = choose|a: int| #[trigger] entry_feeds(newly, judged, exits, first, a, e);
        assert(feeds(l, judged, exits, lvl, newly[a].0, e));
    }
    if frontier_of(l, judged, exits, lvl).contains(e) {
        let k = choose|k: u16| #[trigger] feeds(l, judged, exits, lvl, k, e);
        let a = choose|a: int| 0 <= a < newly.len() && newly[a].0 == k;
        assert(entry_feeds(newly, judged, exits, first, a, e));
    }
    assert forall|h: int| 0 <= h < n implies (exists|a: int| #[trigger] entry_feeds(newly, judged, exits, first, a, e)
        && newly[a].1@[h]) == frontier_homes(l, judged, exits, lvl, e, n)[h] by {
        if exists|a: int| #[trigger] entry_feeds(newly, judged, exits, first, a, e) && newly[a].1@[h] {
            let a = choose|a: int| #[trigger] entry_feeds(newly, judged, exits, first, a, e) && newly[a].1@[h];
            assert(feeds(l, judged, exits, lvl, newly[a].0, e) && l.homes[newly[a].0][h]);
        }
        if frontier_homes(l, judged, exits, lvl, e, n)[h] {
            let k = choose|k: u16| #[trigger] feeds(l, judged, exits, lvl, k, e) && l.homes[k][h];
            let a = choose|a: int| 0 <= a < newly.len() && newly[a].0 == k;
            assert(entry_feeds(newly, judged, exits, first, a, e) && newly[a].1@[h]);
        }
    }
}

/// Once a level reaches nothing, no later level visits or reaches
/// anything.
proof fn lemma_walk_ends(
    seeds: Seq<RoomName>,
    judged: Map<u16, (bool, bool)>,
    exits: Map<u16, Vec<RoomName>>,
    lvl: nat,
    m: nat,
)
    requires
        frontier_of(gather_level(seeds, judged, exits, lvl), judged, exits, lvl) =~= Set::<u16>::empty(),
        m > lvl,
    ensures
        gather_level(seeds, judged, exits, m).newly =~= Set::<u16>::empty(),
        gather_level(seeds, judged, exits, m).homes.dom() =~= Set::<u16>::empty(),
        gather_level(seeds, judged, exits, m).visited == gather_level(seeds, judged, exits, lvl).visited,
        frontier_of(gather_level(seeds, judged, exits, m), judged, exits, m) =~= Set::<u16>::empty(),
    decreases m - lvl,
{
    if m > lvl + 1 {
        lemma_walk_ends(seeds, judged, exits, lvl, (m - 1) as nat);
    }
    let l = gather_level(seeds, judged, exits, (m - 1) as nat);
    let g = gather_level(seeds, judged, exits, m);
    assert(frontier_of(l, judged, exits, (m - 1) as nat) =~= Set::<u16>::empty());
    assert(g.newly =~= Set::<u16>::empty());
    assert(g.visited =~= l.visited);
    assert forall|e: u16| !frontier_of(g, judged, exits, m).contains(e) by {
        if frontier_of(g, judged, exits, m).contains(e) {
            let k = choose|k: u16| #[trigger] feeds(g, judged, exits, m, k, e);
        }
    }
}

/// A copy of a home mask.
fn copy_mask(v: &Vec<bool>) -> (out: Vec<bool>)
    ensures
        out@ == v@,
{
    let mut out: Vec<bool> = Vec::new();
    let mut i: usize = 0;
    while i < v.len()
        invariant
            0 <= i <= v@.len(),
            out@ == v@.take(i as int),
        decreases v@.len() - i,
    {
        out.push(v[i]);
        assert(v@.take(i as int + 1) == v@.take(i as int).push(v@[i as int]));
        i += 1;
    }
    assert(v@.take(v@.len() as int) == v@);
    out
}

/// A reported candidate: first visited at its distance, judged viable, with
/// the homes it was reached from.
pub open spec fn candidate_ok(
    seeds: Seq<RoomName>,
    judged: Map<u16, (bool, bool)>,
    exits: Map<u16, Vec<RoomName>>,
    c: GatheredRoom,
) -> bool {
    &&& c.distance >= 1
    &&& gather_level(seeds, judged, exits, c.distance as nat).newly.contains(c.room.packed)
    &&& judged.contains_key(c.room.packed)
    &&& judged[c.room.packed].0
    &&& c.homes@ == gather_level(seeds, judged, exits, c.distance as nat).homes[c.room.packed]
}

/// A reported unknown room: unknown at its distance, with the homes it was
/// reached from there, and not reached again up to level `upto`.
pub open spec fn unknown_ok(
    seeds: Seq<RoomName>,
    judged: Map<u16, (bool, bool)>,
    exits: Map<u16, Vec<RoomName>>,
    u: GatheredRoom,
    upto: nat,
) -> bool {
    &&& unknown_at(seeds, judged, exits, u.distance as nat, u.room.packed)
    &&& u.homes@ == gather_level(seeds, judged, exits, u.distance as nat).homes[u.room.packed]
    &&& forall|l: nat| u.distance < l <= upto ==> !#[trigger] unknown_at(seeds, judged, exits, l, u.room.packed)
}

/// Walk out from the `seeds` (the home rooms) over `exits`, one hop
/// per level, judging each room the first time the walk reaches it (see
/// [`gather_level`]). Returns each viable judged room with the level it
/// was first visited at and the homes it was reached from, and each room
/// the judgment knows nothing about with the last level it was reached at
/// and the homes it was reached from there; each room once. The walk ends
/// at the first level that reaches nothing.
pub fn gather_candidate_rooms(
    seeds: &[RoomName],
    exits: &HashMap<u16, Vec<RoomName>>,
    judged: &HashMap<u16, (bool, bool)>,
) -> (r: GatheredRooms)
    ensures
        forall|i: int| 0 <= i < r.candidates@.len() ==> candidate_ok(seeds@, judged@, exits@, #[trigger] r.candidates@[i]),
        forall|lvl: nat, k: u16|
            lvl >= 1 && #[trigger] gather_level(seeds@, judged@, exits@, lvl).newly.contains(k) && judged@.contains_key(k)
                && judged@[k].0 ==> exists|i: int|
                0 <= i < r.candidates@.len() && r.candidates@[i].room.packed == k && r.candidates@[i].distance == lvl,
        forall|i: int, j: int|
            0 <= i < j < r.candidates@.len() ==> r.candidates@[i].room.packed != r.candidates@[j].room.packed,
        forall|i: int|
            0 <= i < r.unknown@.len() ==> {
                &&& unknown_at(seeds@, judged@, exits@, r.unknown@[i].distance as nat, r.unknown@[i].room.packed)
                &&& r.unknown@[i].homes@ == gather_level(
                    seeds@,
                    judged@,
                    exits@,
                    r.unknown@[i].distance as nat,
                ).homes[r.unknown@[i].room.packed]
                &&& forall|l: nat|
                    l > r.unknown@[i].distance ==> !#[trigger] unknown_at(seeds@, judged@, exits@, l, r.unknown@[i].room.packed)
            },
        forall|lvl: nat, k: u16|
            #[trigger] unknown_at(seeds@, judged@, exits@, lvl, k) ==> exists|i: int|
                0 <= i < r.unknown@.len() && r.unknown@[i].room.packed == k,
        forall|i: int, j: int| 0 <= i < j < r.unknown@.len() ==> r.unknown@[i].room.packed != r.unknown@[j].room.packed,
{
    proof {
        assert(vstd::std_specs::hash::obeys_key_model::<u16>());
    }
    let ghost sd = seeds@;
    let ghost jd = judged@;
    let ghost ex = exits@;
    let n = seeds.len();
    let mut visited: HashSet<u16> = HashSet::new();
    let mut newly: Vec<(u16, Vec<bool>)> = Vec::new();
    let mut i: usize = 0;
    while i < seeds.len()
        invariant
            0 <= i <= seeds@.len(),
            n == seeds@.len(),
            sd == seeds@,
            visited@.finite(),
            forall|k: u16| #[trigger] visited@.contains(k) <==> exists|h: int| 0 <= h < i && seeds@[h].packed == k,
            forall|k: u16| #[trigger] visited@.contains(k) <==> exists|a: int| 0 <= a < newly@.len() && newly@[a].0 == k,
            forall|a: int, b: int| 0 <= a < b < newly@.len() ==> newly@[a].0 != newly@[b].0,
            forall|a: int|
                0 <= a < newly@.len() ==> (#[trigger] newly@[a]).1@ == Seq::new(
                    n as nat,
                    |h: int| seeds@[h].packed == newly@[a].0,
                ),
        decreases seeds@.len() - i,
    {
        let k = seeds[i].packed;
        let ghost vis_before = visited@;
        let ghost newly_before = newly@;
        if !visited.contains(&k) {
            let mut mask: Vec<bool> = Vec::new();
            let mut h: usize = 0;
            while h < n
                invariant
                    0 <= h <= n,
                    n == seeds@.len(),
                    mask@.len() == h,
                    forall|x: int| 0 <= x < h ==> mask@[x] == (seeds@[x].packed == k),
                decreases n - h,
            {
                mask.push(seeds[h].packed == k);
                h += 1;
            }
            assert(mask@ =~= Seq::new(n as nat, |h: int| seeds@[h].packed == k));
            visited.insert(k);
            newly.push((k, mask));
            proof {
                assert forall|u: u16| #[trigger] visited@.contains(u) <==> exists|a: int|
                    0 <= a < newly@.len() && newly@[a].0 == u by {
                    if u == k {
                        assert(newly@[newly@.len() - 1].0 == k);
                    } else if vis_before.contains(u) {
                        let a = choose|a: int| 0 <= a < newly_before.len() && newly_before[a].0 == u;
                        assert(newly@[a] == newly_before[a]);
                    }
                    if exists|a: int| 0 <= a < newly@.len() && newly@[a].0 == u {
                        let a = choose|a: int| 0 <= a < newly@.len() && newly@[a].0 == u;
                        if a < newly_before.len() {
                            assert(newly@[a] == newly_before[a]);
                        }
                    }
                }
                assert forall|a: int, b: int| 0 <= a < b < newly@.len() implies newly@[a].0 != newly@[b].0 by {
                    assert(newly@[a] == newly_before[a]);
                    if b < newly_before.len() {
                        assert(newly@[b] == newly_before[b]);
                    } else {
                        assert(vis_before.contains(newly_before[a].0));
                    }
                }
                assert forall|a: int| 0 <= a < newly@.len() implies (#[trigger] newly@[a]).1@ == Seq::new(
                    n as nat,
                    |h: int| seeds@[h].packed == newly@[a].0,
                ) by {
                    if a < newly_before.len() {
                        assert(newly@[a] == newly_before[a]);
                    }
                }
            }
        }
        proof {
            assert forall|u: u16| #[trigger] visited@.contains(u) <==> exists|h: int| 0 <= h < i + 1 && seeds@[h].packed == u by {
                if u == k {
                    assert(seeds@[i as int].packed == k);
                }
                if exists|h: int| 0 <= h < i + 1 && seeds@[h].packed == u {
                    let h = choose|h: int| 0 <= h < i + 1 && seeds@[h].packed == u;
                    if h < i {
                        assert(vis_before.contains(u));
                    }
                }
            }
        }
        i += 1;
    }
    let ghost l0 = gather_level(sd, jd, ex, 0);
    proof {
        assert(visited@ =~= l0.visited);
        assert forall|k: u16| #[trigger] l0.newly.contains(k) implies exists|a: int|
            0 <= a < newly@.len() && newly@[a].0 == k by {
            let h = choose|h: int| 0 <= h < seeds@.len() && (#[trigger] seeds@[h]).packed == k;
            assert(visited@.contains(k));
        }
        assert forall|a: int| 0 <= a < newly@.len() implies l0.newly.contains(#[trigger] newly@[a].0)
            && newly@[a].1@ == l0.homes[newly@[a].0] && newly@[a].1@.len() == n by {
            assert(visited@.contains(newly@[a].0));
        }
        assert(newly_matches(newly@, l0, n as nat));
        if newly@.len() > 0 {
            assert(visited@.contains(newly@[0].0));
            if visited@.len() == 0 {
                assert(visited@ =~= Set::<u16>::empty());
            }
        }
    }
    let mut candidates: Vec<GatheredRoom> = Vec::new();
    let mut unknown: Vec<GatheredRoom> = Vec::new();
    let mut unknown_index: HashMap<u16, usize> = HashMap::new();
    let mut lvl: u32 = 0;
    loop
        invariant
            n == seeds@.len(),
            sd == seeds@,
            jd == judged@,
            ex == exits@,
            visited@.finite(),
            visited@ == gather_level(sd, jd, ex, lvl as nat).visited,
            newly_matches(newly@, gather_level(sd, jd, ex, lvl as nat), n as nat),
            lvl <= visited@.len(),
            newly@.len() > 0 ==> lvl < visited@.len(),
            forall|i: int|
                0 <= i < candidates@.len() ==> candidate_ok(sd, jd, ex, #[trigger] candidates@[i])
                    && candidates@[i].distance <= lvl && visited@.contains(candidates@[i].room.packed),
            forall|l: nat, k: u16|
                1 <= l <= lvl && #[trigger] gather_level(sd, jd, ex, l).newly.contains(k) && jd.contains_key(k) && jd[k].0
                    ==> exists|i: int|
                    0 <= i < candidates@.len() && candidates@[i].room.packed == k && candidates@[i].distance == l,
            forall|i: int, j: int|
                0 <= i < j < candidates@.len() ==> candidates@[i].room.packed != candidates@[j].room.packed,
            forall|i: int| 0 <= i < unknown@.len() ==> unknown_ok(sd, jd, ex, #[trigger] unknown@[i], lvl as nat)
                && unknown@[i].distance <= lvl,
            forall|l: nat, k: u16| 1 <= l <= lvl && #[trigger] unknown_at(sd, jd, ex, l, k) ==> unknown_index@.contains_key(k),
            forall|i: int, j: int| 0 <= i < j < unknown@.len() ==> unknown@[i].room.packed != unknown@[j].room.packed,
            forall|i: int| 0 <= i < unknown@.len() ==> unknown_index@.contains_key(#[trigger] unknown@[i].room.packed),
            forall|k: u16|
                #[trigger] unknown_index@.contains_key(k) ==> unknown_index@[k] < unknown@.len()
                    && unknown@[unknown_index@[k] as int].room.packed == k,
        ensures
            forall|i: int| 0 <= i < candidates@.len() ==> candidate_ok(sd, jd, ex, #[trigger] candidates@[i]),
            forall|m: nat, k: u16|
                m >= 1 && #[trigger] gather_level(sd, jd, ex, m).newly.contains(k) && jd.contains_key(k) && jd[k].0
                    ==> exists|i: int| 0 <= i < candidates@.len() && candidates@[i].room.packed == k && candidates@[i].distance == m,
            forall|i: int, j: int|
                0 <= i < j < candidates@.len() ==> candidates@[i].room.packed != candidates@[j].room.packed,
            forall|i: int|
                0 <= i < unknown@.len() ==> {
                    &&& unknown_at(sd, jd, ex, unknown@[i].distance as nat, unknown@[i].room.packed)
                    &&& unknown@[i].homes@ == gather_level(sd, jd, ex, unknown@[i].distance as nat).homes[unknown@[i].room.packed]
                    &&& forall|m: nat|
                        m > unknown@[i].distance ==> !#[trigger] unknown_at(sd, jd, ex, m, unknown@[i].room.packed)
                },
            forall|m: nat, k: u16|
                #[trigger] unknown_at(sd, jd, ex, m, k) ==> exists|i: int| 0 <= i < unknown@.len() && unknown@[i].room.packed == k,
            forall|i: int, j: int| 0 <= i < j < unknown@.len() ==> unknown@[i].room.packed != unknown@[j].room.packed,
        decreases 2 * (65536 - visited@.len()) + if newly@.len() > 0 {
            1int
        } else {
            0int
        },
    {
        let ghost l = gather_level(sd, jd, ex, lvl as nat);
        let ghost l2 = gather_level(sd, jd, ex, lvl as nat + 1);
        let ghost f = frontier_of(l, jd, ex, lvl as nat);
        proof {
            lemma_room_set_bound(visited@);
        }
        let first = lvl == 0;
        let fkeys = frontier_keys(&newly, exits, judged, first);
        proof {
            assert forall|e: u16| fkeys@.contains(e) <==> f.contains(e) by {
                lemma_entries_feed(newly@, l, jd, ex, lvl as nat, first, e, n as nat);
            }
        }
        if fkeys.len() == 0 {
            proof {
                assert(f =~= Set::<u16>::empty()) by {
                    assert forall|e: u16| !f.contains(e) by {
                        if f.contains(e) {
                            assert(fkeys@.contains(e));
                        }
                    }
                }
                assert forall|m: nat, k: u16|
                    m >= 1 && #[trigger] gather_level(sd, jd, ex, m).newly.contains(k) && jd.contains_key(k) && jd[k].0
                        implies exists|i: int|
                        0 <= i < candidates@.len() && candidates@[i].room.packed == k && candidates@[i].distance == m by {
                    if m > lvl {
                        lemma_walk_ends(sd, jd, ex, lvl as nat, m);
                    }
                }
                assert forall|m: nat, k: u16| #[trigger] unknown_at(sd, jd, ex, m, k) implies exists|i: int|
                    0 <= i < unknown@.len() && unknown@[i].room.packed == k by {
                    if m > lvl {
                        lemma_walk_ends(sd, jd, ex, lvl as nat, m);
                    }
                    let i = unknown_index@[k] as int;
                    assert(unknown@[i].room.packed == k);
                }
                assert forall|i: int| #![trigger unknown@[i]] 0 <= i < unknown@.len() implies forall|m: nat|
                    m > unknown@[i].distance ==> !#[trigger] unknown_at(sd, jd, ex, m, unknown@[i].room.packed) by {
                    assert forall|m: nat| m > unknown@[i].distance implies !#[trigger] unknown_at(
                        sd,
                        jd,
                        ex,
                        m,
                        unknown@[i].room.packed,
                    ) by {
                        assert(unknown_ok(sd, jd, ex, unknown@[i], lvl as nat));
                        if m > lvl {
                            lemma_walk_ends(sd, jd, ex, lvl as nat, m);
                        }
                    }
                }
            }
            break;
        }
        proof {
            let e0 = fkeys@[0];
            assert(fkeys@.contains(e0));
            let a = choose|a: int| #[trigger] entry_feeds(newly@, jd, ex, first, a, e0);
            assert(newly@.len() > 0);
            assert forall|k: u16| #[trigger] l2.newly.contains(k) <==> (f.contains(k) && !l.visited.contains(k) && jd.contains_key(k)) by {}
            assert forall|k: u16| #[trigger] l2.homes.contains_key(k) <==> f.contains(k) by {}
            assert forall|k: u16| f.contains(k) implies #[trigger] l2.homes[k] == frontier_homes(l, jd, ex, lvl as nat, k, n as nat) by {}
            assert(l2.visited == l.visited.union(l2.newly));
        }
        let ghost visited0 = visited@;
        let ghost cand0 = candidates@;
        let ghost mut cpos: Map<u16, int> = Map::empty();
        let mut next: Vec<(u16, Vec<bool>)> = Vec::new();
        let mut idx: usize = 0;
        while idx < fkeys.len()
            invariant
                0 <= idx <= fkeys@.len(),
                n == seeds@.len(),
                sd == seeds@,
                jd == judged@,
                ex == exits@,
                l == gather_level(sd, jd, ex, lvl as nat),
                l2 == gather_level(sd, jd, ex, lvl as nat + 1),
                f == frontier_of(l, jd, ex, lvl as nat),
                first == (lvl == 0),
                forall|k: u16| #[trigger] l2.newly.contains(k) <==> (f.contains(k) && !l.visited.contains(k) && jd.contains_key(k)),
                forall|k: u16| #[trigger] l2.homes.contains_key(k) <==> f.contains(k),
                forall|k: u16| f.contains(k) ==> #[trigger] l2.homes[k] == frontier_homes(l, jd, ex, lvl as nat, k, n as nat),
                newly_matches(newly@, l, n as nat),
                lvl < visited0.len(),
                visited0.len() <= 65536,
                visited0 == l.visited,
                visited0.finite(),
                forall|x: int, y: int| 0 <= x < y < fkeys@.len() ==> fkeys@[x] != fkeys@[y],
                forall|e: u16| fkeys@.contains(e) <==> f.contains(e),
                visited@.finite(),
                visited@.len() == visited0.len() + next@.len(),
                forall|k: u16|
                    #[trigger] visited@.contains(k) <==> (visited0.contains(k) || exists|x: int|
                        0 <= x < idx && fkeys@[x] == k && jd.contains_key(k) && !visited0.contains(k)),
                forall|a: int, b: int| 0 <= a < b < next@.len() ==> next@[a].0 != next@[b].0,
                forall|a: int|
                    0 <= a < next@.len() ==> l2.newly.contains(#[trigger] next@[a].0) && next@[a].1@ == l2.homes[next@[a].0]
                        && next@[a].1@.len() == n && visited@.contains(next@[a].0) && !visited0.contains(next@[a].0),
                forall|x: int|
                    0 <= x < idx && #[trigger] l2.newly.contains(fkeys@[x]) ==> exists|a: int|
                        0 <= a < next@.len() && next@[a].0 == fkeys@[x],
                candidates@.len() >= cand0.len(),
                forall|i: int| 0 <= i < cand0.len() ==> #[trigger] candidates@[i] == cand0[i],
                forall|i: int|
                    0 <= i < candidates@.len() ==> candidate_ok(sd, jd, ex, #[trigger] candidates@[i])
                        && candidates@[i].distance <= lvl + 1 && visited@.contains(candidates@[i].room.packed),
                forall|m: nat, k: u16|
                    1 <= m <= lvl && #[trigger] gather_level(sd, jd, ex, m).newly.contains(k) && jd.contains_key(k) && jd[k].0
                        ==> exists|i: int| 0 <= i < cand0.len() && cand0[i].room.packed == k && cand0[i].distance == m,
                forall|x: int|
                    0 <= x < idx && #[trigger] l2.newly.contains(fkeys@[x]) && jd[fkeys@[x]].0 ==> cpos.contains_key(fkeys@[x]),
                forall|k: u16|
                    #[trigger] cpos.contains_key(k) ==> 0 <= cpos[k] < candidates@.len() && candidates@[cpos[k]].room.packed == k
                        && candidates@[cpos[k]].distance == lvl + 1,
                forall|i: int, j: int|
                    0 <= i < j < candidates@.len() ==> candidates@[i].room.packed != candidates@[j].room.packed,
                forall|i: int|
                    0 <= i < unknown@.len() ==> unknown_ok(sd, jd, ex, #[trigger] unknown@[i], lvl as nat)
                        && unknown@[i].distance <= lvl + 1 && (unknown_at(sd, jd, ex, lvl as nat + 1, unknown@[i].room.packed)
                        && unknown@[i].distance != lvl + 1 ==> exists|x: int|
                        idx <= x < fkeys@.len() && fkeys@[x] == unknown@[i].room.packed),
                forall|m: nat, k: u16| 1 <= m <= lvl && #[trigger] unknown_at(sd, jd, ex, m, k) ==> unknown_index@.contains_key(k),
                forall|x: int|
                    0 <= x < idx && #[trigger] unknown_at(sd, jd, ex, lvl as nat + 1, fkeys@[x]) ==> unknown_index@.contains_key(
                        fkeys@[x],
                    ),
                forall|i: int, j: int| 0 <= i < j < unknown@.len() ==> unknown@[i].room.packed != unknown@[j].room.packed,
                forall|i: int| 0 <= i < unknown@.len() ==> unknown_index@.contains_key(#[trigger] unknown@[i].room.packed),
                forall|k: u16|
                    #[trigger] unknown_index@.contains_key(k) ==> unknown_index@[k] < unknown@.len()
                        && unknown@[unknown_index@[k] as int].room.packed == k,
            decreases fkeys@.len() - idx,
        {
            let e = fkeys[idx];
            proof {
                assert(fkeys@.contains(e));
                assert forall|x: int| 0 <= x < idx implies fkeys@[x] != e by {}
            }
            proof {
                assert forall|a: int| 0 <= a < newly@.len() implies (#[trigger] newly@[a]).1@.len() == n by {
                    assert(l.newly.contains(newly@[a].0));
                }
            }
            let mask = frontier_mask(&newly, exits, judged, first, e, n);
            proof {
                lemma_entries_feed(newly@, l, jd, ex, lvl as nat, first, e, n as nat);
                assert(mask@ =~= l2.homes[e]);
            }
            let ghost vis_before = visited@;
            let ghost next_before = next@;
            let ghost cand_before = candidates@;
            let ghost unk_before = unknown@;
            let ghost uidx_before = unknown_index@;
            if visited.contains(&e) {
                proof {
                    assert(visited0.contains(e));
                    assert(!l2.newly.contains(e));
                    assert(!unknown_at(sd, jd, ex, lvl as nat + 1, e));
                    assert forall|k: u16|
                        #[trigger] visited@.contains(k) <==> (visited0.contains(k) || exists|x: int|
                            0 <= x < idx + 1 && fkeys@[x] == k && jd.contains_key(k) && !visited0.contains(k)) by {
                        if exists|x: int| 0 <= x < idx + 1 && fkeys@[x] == k && jd.contains_key(k) && !visited0.contains(k) {
                            let x = choose|x: int| 0 <= x < idx + 1 && fkeys@[x] == k && jd.contains_key(k) && !visited0.contains(k);
                            assert(x < idx);
                        }
                    }
                    assert forall|i: int| 0 <= i < unknown@.len() && unknown_at(sd, jd, ex, lvl as nat + 1, #[trigger] unknown@[i].room.packed)
                        && unknown@[i].distance != lvl + 1 implies exists|x: int|
                        idx + 1 <= x < fkeys@.len() && fkeys@[x] == unknown@[i].room.packed by {
                        if unknown_at(sd, jd, ex, lvl as nat + 1, unknown@[i].room.packed) && unknown@[i].distance != lvl + 1 {
                            let x = choose|x: int| idx <= x < fkeys@.len() && fkeys@[x] == unknown@[i].room.packed;
                            assert(x != idx);
                        }
                    }
                }
            } else {
                match judged.get(&e) {
                    Some(j) => {
                        let viable = j.0;
                        proof {
                            assert(l2.newly.contains(e));
                            assert(!unknown_at(sd, jd, ex, lvl as nat + 1, e));
                        }
                        visited.insert(e);
                        let kept = copy_mask(&mask);
                        next.push((e, kept));
                        if viable {
                            let c = GatheredRoom { room: RoomName::from_packed(e), distance: lvl + 1, homes: mask };
                            let ghost at = candidates@.len() as int;
                            candidates.push(c);
                            proof {
                                cpos = cpos.insert(e, at);
                            }
                        }
                        proof {
                            assert forall|k: u16|
                                #[trigger] visited@.contains(k) <==> (visited0.contains(k) || exists|x: int|
                                    0 <= x < idx + 1 && fkeys@[x] == k && jd.contains_key(k) && !visited0.contains(k)) by {
                                if k == e {
                                    assert(fkeys@[idx as int] == e);
                                } else if exists|x: int|
                                    0 <= x < idx + 1 && fkeys@[x] == k && jd.contains_key(k) && !visited0.contains(k) {
                                    let x = choose|x: int|
                                        0 <= x < idx + 1 && fkeys@[x] == k && jd.contains_key(k) && !visited0.contains(k);
                                    assert(x < idx);
                                }
                            }
                            assert forall|a: int, b: int| 0 <= a < b < next@.len() implies next@[a].0 != next@[b].0 by {
                                if b == next@.len() - 1 {
                                    assert(next@[a] == next_before[a]);
                                    assert(vis_before.contains(next_before[a].0));
                                }
                            }
                            assert forall|x: int|
                                0 <= x < idx + 1 && #[trigger] l2.newly.contains(fkeys@[x]) implies exists|a: int|
                                0 <= a < next@.len() && next@[a].0 == fkeys@[x] by {
                                if x == idx {
                                    assert(next@[next@.len() - 1].0 == e);
                                } else {
                                    let a = choose|a: int| 0 <= a < next_before.len() && next_before[a].0 == fkeys@[x];
                                    assert(next@[a] == next_before[a]);
                                }
                            }
                            assert forall|i: int, j: int|
                                0 <= i < j < candidates@.len() implies candidates@[i].room.packed != candidates@[j].room.packed by {
                                if j == candidates@.len() - 1 && candidates@.len() > cand_before.len() {
                                    assert(candidates@[i] == cand_before[i]);
                                    assert(vis_before.contains(cand_before[i].room.packed));
                                }
                            }
                            assert forall|x: int|
                                0 <= x < idx + 1 && #[trigger] unknown_at(sd, jd, ex, lvl as nat + 1, fkeys@[x]) implies unknown_index@.contains_key(
                                fkeys@[x],
                            ) by {}
                            assert forall|i: int| 0 <= i < unknown@.len() && unknown_at(sd, jd, ex, lvl as nat + 1, #[trigger] unknown@[i].room.packed)
                        && unknown@[i].distance != lvl + 1 implies exists|x: int|
                        idx + 1 <= x < fkeys@.len() && fkeys@[x] == unknown@[i].room.packed by {
                                if unknown_at(sd, jd, ex, lvl as nat + 1, unknown@[i].room.packed) && unknown@[i].distance
                                    != lvl + 1 {
                                    let x = choose|x: int| idx <= x < fkeys@.len() && fkeys@[x] == unknown@[i].room.packed;
                                    assert(x != idx);
                                }
                            }
                        }
                    },
                    None => {
                        proof {
                            assert(!jd.contains_key(e));
                            assert(unknown_at(sd, jd, ex, lvl as nat + 1, e));
                        }
                        let u = GatheredRoom { room: RoomName::from_packed(e), distance: lvl + 1, homes: mask };
                        match unknown_index.get(&e) {
                            Some(ix) => {
                                let ix = *ix;
                                unknown.set(ix, u);
                                proof {
                                    assert forall|i: int| 0 <= i < unknown@.len() implies unknown@[i].room.packed
                                        == unk_before[i].room.packed by {}
                                }
                            },
                            None => {
                                let at = unknown.len();
                                unknown_index.insert(e, at);
                                unknown.push(u);
                                proof {
                                    assert forall|i: int, j: int| 0 <= i < j < unknown@.len() implies unknown@[i].room.packed
                                        != unknown@[j].room.packed by {
                                        if j == unknown@.len() - 1 {
                                            assert(unknown@[i] == unk_before[i]);
                                            assert(uidx_before.contains_key(unk_before[i].room.packed));
                                        }
                                    }
                                }
                            },
                        }
                        proof {
                            assert forall|k: u16|
                                #[trigger] visited@.contains(k) <==> (visited0.contains(k) || exists|x: int|
                                    0 <= x < idx + 1 && fkeys@[x] == k && jd.contains_key(k) && !visited0.contains(k)) by {
                                if exists|x: int|
                                    0 <= x < idx + 1 && fkeys@[x] == k && jd.contains_key(k) && !visited0.contains(k) {
                                    let x = choose|x: int|
                                        0 <= x < idx + 1 && fkeys@[x] == k && jd.contains_key(k) && !visited0.contains(k);
                                    assert(x < idx);
                                }
                            }
                            assert forall|i: int| 0 <= i < unknown@.len() && unknown_at(sd, jd, ex, lvl as nat + 1, #[trigger] unknown@[i].room.packed)
                        && unknown@[i].distance != lvl + 1 implies exists|x: int|
                        idx + 1 <= x < fkeys@.len() && fkeys@[x] == unknown@[i].room.packed by {
                                if unknown_at(sd, jd, ex, lvl as nat + 1, unknown@[i].room.packed) && unknown@[i].distance
                                    != lvl + 1 {
                                    assert(unknown@[i] == unk_before[i]);
                                    let x = choose|x: int| idx <= x < fkeys@.len() && fkeys@[x] == unknown@[i].room.packed;
                                    assert(x != idx);
                                }
                            }
                            assert forall|i: int| 0 <= i < unknown@.len() implies unknown_ok(
                                sd,
                                jd,
                                ex,
                                #[trigger] unknown@[i],
                                lvl as nat,
                            ) by {
                                if unknown@[i].room.packed != e {
                                    assert(unknown@[i] == unk_before[i]);
                                }
                            }
                        }
                    },
                }
            }
            idx += 1;
        }
        proof {
            lemma_room_set_bound(visited@);
            let l2v = l2.visited;
            assert forall|k: u16| visited@.contains(k) <==> l2v.contains(k) by {
                if l2.newly.contains(k) && !visited0.contains(k) {
                    assert(fkeys@.contains(k));
                    let x = choose|x: int| 0 <= x < fkeys@.len() && fkeys@[x] == k;
                }
            }
            assert(visited@ =~= l2v);
            assert forall|k: u16| #[trigger] l2.newly.contains(k) implies exists|a: int|
                0 <= a < next@.len() && next@[a].0 == k by {
                assert(fkeys@.contains(k));
                let x = choose|x: int| 0 <= x < fkeys@.len() && fkeys@[x] == k;
            }
            assert(newly_matches(next@, l2, n as nat));
            assert forall|m: nat, k: u16|
                1 <= m <= lvl + 1 && #[trigger] gather_level(sd, jd, ex, m).newly.contains(k) && jd.contains_key(k) && jd[k].0
                    implies exists|i: int|
                    0 <= i < candidates@.len() && candidates@[i].room.packed == k && candidates@[i].distance == m by {
                if m <= lvl {
                    let i = choose|i: int| 0 <= i < cand0.len() && cand0[i].room.packed == k && cand0[i].distance == m;
                    assert(candidates@[i] == cand0[i]);
                } else {
                    assert(l2.newly.contains(k));
                    assert(fkeys@.contains(k));
                    let x = choose|x: int| 0 <= x < fkeys@.len() && fkeys@[x] == k;
                    let i = cpos[k];
                    assert(candidates@[i].room.packed == k);
                }
            }
            assert forall|m: nat, k: u16|
                1 <= m <= lvl + 1 && #[trigger] unknown_at(sd, jd, ex, m, k) implies unknown_index@.contains_key(k) by {
                if m == lvl + 1 {
                    assert(l2.homes.contains_key(k));
                    assert(fkeys@.contains(k));
                    let x = choose|x: int| 0 <= x < fkeys@.len() && fkeys@[x] == k;
                }
            }
            assert forall|i: int| 0 <= i < unknown@.len() implies unknown_ok(sd, jd, ex, #[trigger] unknown@[i], lvl as nat + 1)
                by {
                assert(unknown_ok(sd, jd, ex, unknown@[i], lvl as nat));
            }
        }
        newly = next;
        lvl = lvl + 1;
    }
    let r = GatheredRooms { candidates, unknown };
    proof {
        assert forall|m: nat, k: u16|
            m >= 1 && #[trigger] gather_level(seeds@, judged@, exits@, m).newly.contains(k) && judged@.contains_key(k)
                && judged@[k].0 implies exists|i: int|
                0 <= i < r.candidates@.len() && r.candidates@[i].room.packed == k && r.candidates@[i].distance == m by {
            assert(gather_level(sd, jd, ex, m).newly.contains(k));
            let i = choose|i: int|
                0 <= i < candidates@.len() && candidates@[i].room.packed == k && candidates@[i].distance == m;
            assert(r.candidates@[i] == candidates@[i]);
        }
        assert forall|m: nat, k: u16| #[trigger] unknown_at(seeds@, judged@, exits@, m, k) implies exists|i: int|
            0 <= i < r.unknown@.len() && r.unknown@[i].room.packed == k by {
            assert(unknown_at(sd, jd, ex, m, k));
            let i = choose|i: int| 0 <= i < unknown@.len() && unknown@[i].room.packed == k;
            assert(r.unknown@[i] == unknown@[i]);
        }
    }
    r
}

} // verus!
