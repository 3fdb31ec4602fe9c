//! Single-room weighted grid search and room-edge reachability.
//!
//! A room is a 50×50 grid; tile `t` (an index `y * 50 + x`) sits at
//! column `t % 50`, row `t / 50`. Creeps move in 8 directions. A search
//! prices stepping ONTO a tile with `enter_cost[t]` (`None` = impassable);
//! the start tile itself is never priced.
use vstd::prelude::*;
use std::collections::VecDeque;

verus! {

pub const ROOM_DIM: usize = 50;

/// Number of tiles in a room.
pub open spec fn room_area() -> int {
    2500
}

pub open spec fn tile_x(t: int) -> int {
    t % 50
}

pub open spec fn tile_y(t: int) -> int {
    t / 50
}

pub open spec fn in_room(t: int) -> bool {
    0 <= t < room_area()
}

/// The tile a coordinate pair names.
pub open spec fn tile_of(c: (u8, u8)) -> int {
    c.1 as int * 50 + c.0 as int
}

/// A coordinate pair inside the room.
pub open spec fn coord_in_room(c: (u8, u8)) -> bool {
    c.0 < 50 && c.1 < 50
}

/// Two distinct tiles one king's move apart.
pub open spec fn adjacent(a: int, b: int) -> bool {
    &&& in_room(a)
    &&& in_room(b)
    &&& a != b
    &&& -1 <= tile_x(a) - tile_x(b) <= 1
    &&& -1 <= tile_y(a) - tile_y(b) <= 1
}

pub open spec fn passable(enter_cost: Seq<Option<u64>>, t: int) -> bool {
    in_room(t) && enter_cost[t] is Some
}

/// Price of stepping onto `t` (0 for an impassable tile, which no walk enters).
pub open spec fn step_cost(enter_cost: Seq<Option<u64>>, t: int) -> int {
    match enter_cost[t] {
        Some(c) => c as int,
        None => 0,
    }
}

/// Where a walk from `start` ends (the start itself for the empty walk).
pub open spec fn walk_end(start: int, w: Seq<int>) -> int {
    if w.len() == 0 {
        start
    } else {
        w.last()
    }
}

/// The tile a walk stands on before its `i`-th step.
pub open spec fn walk_before(start: int, w: Seq<int>, i: int) -> int {
    if i == 0 {
        start
    } else {
        w[i - 1]
    }
}

/// `w` lists the tiles a creep enters, in order, walking from `start`: each
/// one passable and a king's move from the one before.
pub open spec fn is_walk(enter_cost: Seq<Option<u64>>, start: int, w: Seq<int>) -> bool {
    forall|i: int|
        #![trigger w[i]]
        0 <= i < w.len() ==> passable(enter_cost, w[i]) && adjacent(walk_before(start, w, i), w[i])
}

/// Total price of the tiles a walk enters.
pub open spec fn walk_cost(enter_cost: Seq<Option<u64>>, w: Seq<int>) -> int
    decreases w.len(),
{
    if w.len() == 0 {
        0
    } else {
        walk_cost(enter_cost, w.drop_last()) + step_cost(enter_cost, w.last())
    }
}

/// Within `range` (Chebyshev) of `goal`.
pub open spec fn satisfies_goal(t: int, goal: (u8, u8), range: u8) -> bool {
    &&& -(range as int) <= tile_x(t) - goal.0 <= range as int
    &&& -(range as int) <= tile_y(t) - goal.1 <= range as int
}

/// The tiles a list of coordinates names.
pub open spec fn path_tiles(p: Seq<(u8, u8)>) -> Seq<int> {
    p.map_values(|c: (u8, u8)| tile_of(c))
}

proof fn lemma_tile_coords(t: int)
    requires
        in_room(t),
    ensures
        t == tile_y(t) * 50 + tile_x(t),
        0 <= tile_x(t) < 50,
        0 <= tile_y(t) < 50,
{
}

proof fn lemma_tile_index(x: int, y: int)
    requires
        0 <= x < 50,
        0 <= y < 50,
    ensures
        tile_x(y * 50 + x) == x,
        tile_y(y * 50 + x) == y,
        in_room(y * 50 + x),
{
}

proof fn lemma_walk_cost_push(enter_cost: Seq<Option<u64>>, w: Seq<int>, t: int)
    ensures
        walk_cost(enter_cost, w.push(t)) == walk_cost(enter_cost, w) + step_cost(enter_cost, t),
{
    assert(w.push(t).drop_last() =~= w);
}

proof fn lemma_walk_cost_nonneg(enter_cost: Seq<Option<u64>>, w: Seq<int>)
    ensures
        walk_cost(enter_cost, w) >= 0,
    decreases w.len(),
{
    if w.len() > 0 {
        lemma_walk_cost_nonneg(enter_cost, w.drop_last());
    }
}

proof fn lemma_walk_push(enter_cost: Seq<Option<u64>>, start: int, w: Seq<int>, t: int)
    requires
        is_walk(enter_cost, start, w),
        passable(enter_cost, t),
        adjacent(walk_end(start, w), t),
    ensures
        is_walk(enter_cost, start, w.push(t)),
        walk_end(start, w.push(t)) == t,
{
    let w2 = w.push(t);
    assert forall|i: int| 0 <= i < w2.len() implies passable(enter_cost, w2[i]) && adjacent(
        walk_before(start, w2, i),
        w2[i],
    ) by {
        if i < w.len() {
            assert(w2[i] == w[i]);
            if i > 0 {
                assert(w2[i - 1] == w[i - 1]);
            }
        }
    }
}

proof fn lemma_walk_drop_last(enter_cost: Seq<Option<u64>>, start: int, w: Seq<int>)
    requires
        is_walk(enter_cost, start, w),
        w.len() > 0,
    ensures
        is_walk(enter_cost, start, w.drop_last()),
        adjacent(walk_end(start, w.drop_last()), w.last()),
        passable(enter_cost, w.last()),
{
    let w2 = w.drop_last();
    assert forall|i: int| 0 <= i < w2.len() implies passable(enter_cost, w2[i]) && adjacent(
        walk_before(start, w2, i),
        w2[i],
    ) by {
        assert(w2[i] == w[i]);
        if i > 0 {
            assert(w2[i - 1] == w[i - 1]);
        }
    }
    assert(w[w.len() - 1] == w.last());
}


/// `x` capped at `u64::MAX`: what a saturating running total reads.
pub open spec fn capped(x: int) -> int {
    if x < u64::MAX { x } else { u64::MAX as int }
}

/// Every passable neighbour of `p` is priced no higher than reaching it
/// through `p`.
spec fn relaxed_from(enter_cost: Seq<Option<u64>>, dist: Seq<u64>, p: int) -> bool {
    forall|v: int|
        #![trigger adjacent(p, v)]
        adjacent(p, v) && passable(enter_cost, v) ==> dist[v] as int <= capped(
            dist[p] + step_cost(enter_cost, v),
        )
}

/// No walk from `start` to `u` is cheaper than `dist[u]`.
spec fn settled_optimal(enter_cost: Seq<Option<u64>>, start: int, dist: Seq<u64>, u: int) -> bool {
    forall|w: Seq<int>|
        #[trigger] is_walk(enter_cost, start, w) && walk_end(start, w) == u ==> dist[u] as int
            <= walk_cost(enter_cost, w)
}

/// The state the search keeps between settling tiles. `wit[v]` is a walk
/// that achieves `dist[v]`; `prev[v]` is the tile it came through.
#[verifier::opaque]
spec fn search_inv(
    enter_cost: Seq<Option<u64>>,
    start: int,
    dist: Seq<u64>,
    prev: Seq<usize>,
    done: Seq<bool>,
    wit: Seq<Seq<int>>,
) -> bool {
    &&& enter_cost.len() == room_area()
    &&& dist.len() == room_area()
    &&& prev.len() == room_area()
    &&& done.len() == room_area()
    &&& wit.len() == room_area()
    &&& in_room(start)
    &&& done[start]
    &&& dist[start] == 0
    &&& wit[start] == Seq::<int>::empty()
    &&& forall|v: int|
        #![trigger dist[v]]
        #![trigger wit[v]]
        in_room(v) && dist[v] < u64::MAX ==> {
            &&& is_walk(enter_cost, start, wit[v])
            &&& walk_end(start, wit[v]) == v
            &&& walk_cost(enter_cost, wit[v]) == dist[v] as int
        }
    &&& forall|v: int|
        #![trigger prev[v]]
        in_room(v) && v != start && dist[v] < u64::MAX ==> {
            &&& prev[v] < room_area()
            &&& done[prev[v] as int]
            &&& wit[v] == wit[prev[v] as int].push(v)
        }
    &&& forall|u: int|
        #![trigger done[u]]
        in_room(u) && done[u] ==> dist[u] < u64::MAX && settled_optimal(enter_cost, start, dist, u)
}

proof fn lemma_inv_basics(
    enter_cost: Seq<Option<u64>>,
    start: int,
    dist: Seq<u64>,
    prev: Seq<usize>,
    done: Seq<bool>,
    wit: Seq<Seq<int>>,
)
    requires
        search_inv(enter_cost, start, dist, prev, done, wit),
    ensures
        enter_cost.len() == room_area(),
        dist.len() == room_area(),
        prev.len() == room_area(),
        done.len() == room_area(),
        wit.len() == room_area(),
        in_room(start),
        done[start],
        dist[start] == 0,
        forall|u: int| #![trigger done[u]] in_room(u) && done[u] ==> dist[u] < u64::MAX,
{
    reveal(search_inv);
}

/// Every reached tile's witness walk avoids the start, and passes only
/// settled tiles before its last.
spec fn wit_settled(start: int, dist: Seq<u64>, done: Seq<bool>, wit: Seq<Seq<int>>) -> bool {
    forall|v: int|
        #![trigger wit[v]]
        in_room(v) && dist[v] < u64::MAX ==> forall|i: int|
            0 <= i < wit[v].len() ==> #[trigger] wit[v][i] != start && in_room(wit[v][i]) && (i < wit[v].len() - 1
                ==> done[wit[v][i]])
}

proof fn lemma_wit_settled_relax(
    enter_cost: Seq<Option<u64>>,
    start: int,
    dist: Seq<u64>,
    prev: Seq<usize>,
    done: Seq<bool>,
    wit: Seq<Seq<int>>,
    node: int,
    nb: int,
    next: u64,
)
    requires
        search_inv(enter_cost, start, dist, prev, done, wit),
        wit_settled(start, dist, done, wit),
        in_room(node),
        done[node],
        in_room(nb),
        !done[nb],
    ensures
        wit_settled(start, dist.update(nb, next), done, wit.update(nb, wit[node].push(nb))),
{
    reveal(search_inv);
    let d2 = dist.update(nb, next);
    let w2 = wit.update(nb, wit[node].push(nb));
    let wn = wit[node];
    assert(dist[node] < u64::MAX);
    assert forall|v: int| #![trigger w2[v]] in_room(v) && d2[v] < u64::MAX implies forall|i: int|
        0 <= i < w2[v].len() ==> #[trigger] w2[v][i] != start && in_room(w2[v][i]) && (i < w2[v].len() - 1
            ==> done[w2[v][i]]) by {
        if v != nb {
            assert(w2[v] == wit[v]);
            assert(dist[v] == d2[v]);
        } else {
            assert(w2[v] == wn.push(nb));
            assert forall|i: int| 0 <= i < w2[v].len() implies #[trigger] w2[v][i] != start && in_room(w2[v][i])
                && (i < w2[v].len() - 1 ==> done[w2[v][i]]) by {
                if i < wn.len() {
                    assert(w2[v][i] == wn[i]);
                    if i == wn.len() - 1 {
                        assert(walk_end(start, wn) == node);
                        assert(wn[i] == wn.last());
                    }
                } else {
                    assert(w2[v][i] == nb);
                }
            }
        }
    }
}

proof fn lemma_wit_settled_grow(start: int, dist: Seq<u64>, done: Seq<bool>, wit: Seq<Seq<int>>, b: int)
    requires
        wit_settled(start, dist, done, wit),
        done.len() == room_area(),
        0 <= b < done.len(),
    ensures
        wit_settled(start, dist, done.update(b, true), wit),
{
    let d2 = done.update(b, true);
    assert forall|v: int| #![trigger wit[v]] in_room(v) && dist[v] < u64::MAX implies forall|i: int|
        0 <= i < wit[v].len() ==> #[trigger] wit[v][i] != start && in_room(wit[v][i]) && (i < wit[v].len() - 1
            ==> d2[wit[v][i]]) by {
        assert forall|i: int| 0 <= i < wit[v].len() implies #[trigger] wit[v][i] != start && in_room(wit[v][i]) && (i
            < wit[v].len() - 1 ==> d2[wit[v][i]]) by {
            if i < wit[v].len() - 1 {
                assert(done[wit[v][i]]);
            }
        }
    }
}

/// Any walk that ends on an unsettled tile crosses the settled frontier at
/// some unsettled tile whose tentative distance is at most the walk's
/// (capped) price.
proof fn lemma_frontier(
    enter_cost: Seq<Option<u64>>,
    start: int,
    dist: Seq<u64>,
    prev: Seq<usize>,
    done: Seq<bool>,
    wit: Seq<Seq<int>>,
    w: Seq<int>,
) -> (k: int)
    requires
        search_inv(enter_cost, start, dist, prev, done, wit),
        forall|p: int| #![trigger done[p]] in_room(p) && done[p] ==> relaxed_from(enter_cost, dist, p),
        is_walk(enter_cost, start, w),
        !done[walk_end(start, w)],
    ensures
        0 <= k < w.len(),
        !done[w[k]],
        in_room(w[k]),
        dist[w[k]] as int <= capped(walk_cost(enter_cost, w)),
    decreases w.len(),
{
    reveal(search_inv);
    let w2 = w.drop_last();
    lemma_walk_drop_last(enter_cost, start, w);
    assert(w2.push(w.last()) =~= w);
    lemma_walk_cost_push(enter_cost, w2, w.last());
    let p = walk_end(start, w2);
    if !done[p] {
        let k = lemma_frontier(enter_cost, start, dist, prev, done, wit, w2);
        assert(w[k] == w2[k]);
        k
    } else {
        assert(in_room(p));
        assert(settled_optimal(enter_cost, start, dist, p));
        assert(dist[p] as int <= walk_cost(enter_cost, w2));
        assert(relaxed_from(enter_cost, dist, p));
        assert(adjacent(p, w.last()));
        (w.len() - 1) as int
    }
}

/// Number of settled tiles.
spec fn count_true(s: Seq<bool>) -> nat
    decreases s.len(),
{
    if s.len() == 0 {
        0
    } else {
        count_true(s.drop_last()) + if s.last() {
            1nat
        } else {
            0nat
        }
    }
}

proof fn lemma_count_true_bound(s: Seq<bool>)
    ensures
        count_true(s) <= s.len(),
    decreases s.len(),
{
    if s.len() > 0 {
        lemma_count_true_bound(s.drop_last());
    }
}

proof fn lemma_count_true_set(s: Seq<bool>, i: int)
    requires
        0 <= i < s.len(),
        !s[i],
    ensures
        count_true(s.update(i, true)) == count_true(s) + 1,
    decreases s.len(),
{
    let u = s.update(i, true);
    if i == s.len() - 1 {
        assert(u.drop_last() =~= s.drop_last());
    } else {
        assert(u.drop_last() =~= s.drop_last().update(i, true));
        lemma_count_true_set(s.drop_last(), i);
    }
}

fn satisfies_goal_exec(x: u8, y: u8, goal: (u8, u8), goal_range: u8) -> (r: bool)
    requires
        x < 50,
        y < 50,
    ensures
        r == satisfies_goal(y as int * 50 + x as int, goal, goal_range),
{
    proof {
        lemma_tile_index(x as int, y as int);
    }
    let dx = if x >= goal.0 { x - goal.0 } else { goal.0 - x };
    let dy = if y >= goal.1 { y - goal.1 } else { goal.1 - y };
    dx <= goal_range && dy <= goal_range
}

/// The unsettled tile with the least tentative distance (lowest index on
/// ties), or `None` when every unsettled tile is unreached.
fn select_min(dist: &Vec<u64>, done: &Vec<bool>) -> (r: Option<usize>)
    requires
        dist@.len() == room_area(),
        done@.len() == room_area(),
    ensures
        match r {
            Some(b) => {
                &&& b < room_area()
                &&& !done@[b as int]
                &&& dist@[b as int] < u64::MAX
                &&& forall|j: int| 0 <= j < room_area() && !done@[j] ==> dist@[b as int] <= dist@[j]
                &&& forall|j: int| 0 <= j < b && !done@[j] ==> dist@[b as int] < dist@[j]
            },
            None => forall|j: int| 0 <= j < room_area() && !done@[j] ==> dist@[j] == u64::MAX,
        },
{
    let mut best: Option<usize> = None;
    let mut i: usize = 0;
    while i < 2500
        invariant
            0 <= i <= 2500,
            dist@.len() == room_area(),
            done@.len() == room_area(),
            match best {
                Some(b) => {
                    &&& b < i
                    &&& !done@[b as int]
                    &&& dist@[b as int] < u64::MAX
                    &&& forall|j: int| 0 <= j < i && !done@[j] ==> dist@[b as int] <= dist@[j]
                    &&& forall|j: int| 0 <= j < b && !done@[j] ==> dist@[b as int] < dist@[j]
                },
                None => forall|j: int| 0 <= j < i && !done@[j] ==> dist@[j] == u64::MAX,
            },
        decreases 2500 - i,
    {
        if !done[i] && dist[i] < u64::MAX {
            match best {
                Some(b) => {
                    if dist[i] < dist[b] {
                        best = Some(i);
                    }
                },
                None => {
                    best = Some(i);
                },
            }
        }
        i += 1;
    }
    best
}


/// Position of neighbour `v` in the 3×3 block around `p`, column-major.
spec fn neighbour_slot(p: int, v: int) -> int {
    (tile_x(v) - tile_x(p) + 1) * 3 + (tile_y(v) - tile_y(p) + 1)
}

proof fn lemma_slot_neighbour(node: int, v: int, d: int)
    requires
        adjacent(node, v),
        neighbour_slot(node, v) == d,
    ensures
        0 <= d < 9,
        d != 4,
        tile_x(v) == tile_x(node) + d / 3 - 1,
        tile_y(v) == tile_y(node) + d % 3 - 1,
        v == (tile_y(node) + d % 3 - 1) * 50 + (tile_x(node) + d / 3 - 1),
{
    lemma_tile_coords(v);
    lemma_tile_coords(node);
    let a = tile_x(v) - tile_x(node) + 1;
    let b = tile_y(v) - tile_y(node) + 1;
    assert(0 <= a < 3 && 0 <= b < 3);
    assert(d == a * 3 + b);
    assert(d / 3 == a && d % 3 == b) by (nonlinear_arith)
        requires d == a * 3 + b, 0 <= a < 3, 0 <= b < 3;
    if d == 4 {
        assert(v == node);
    }
}

/// Stepping from a settled tile to a neighbour through the settled tile's
/// witness walk never beats a settled neighbour.
proof fn lemma_settled_not_improvable(
    enter_cost: Seq<Option<u64>>,
    start: int,
    dist: Seq<u64>,
    prev: Seq<usize>,
    done: Seq<bool>,
    wit: Seq<Seq<int>>,
    node: int,
    nb: int,
)
    requires
        search_inv(enter_cost, start, dist, prev, done, wit),
        in_room(node),
        done[node],
        adjacent(node, nb),
        passable(enter_cost, nb),
    ensures
        is_walk(enter_cost, start, wit[node].push(nb)),
        walk_end(start, wit[node].push(nb)) == nb,
        walk_cost(enter_cost, wit[node].push(nb)) == dist[node] + step_cost(enter_cost, nb),
        done[nb] ==> dist[nb] as int <= dist[node] + step_cost(enter_cost, nb),
{
    reveal(search_inv);
    let wn = wit[node];
    assert(dist[node] < u64::MAX);
    lemma_walk_push(enter_cost, start, wn, nb);
    lemma_walk_cost_push(enter_cost, wn, nb);
    if done[nb] {
        assert(settled_optimal(enter_cost, start, dist, nb));
    }
}

/// Lowering an unsettled neighbour's distance to the price through a
/// settled tile keeps the search state.
proof fn lemma_relax_update(
    enter_cost: Seq<Option<u64>>,
    start: int,
    dist: Seq<u64>,
    prev: Seq<usize>,
    done: Seq<bool>,
    wit: Seq<Seq<int>>,
    node: int,
    nb: int,
    next: u64,
)
    requires
        search_inv(enter_cost, start, dist, prev, done, wit),
        in_room(node),
        done[node],
        adjacent(node, nb),
        passable(enter_cost, nb),
        !done[nb],
        next as int == dist[node] + step_cost(enter_cost, nb),
        next < dist[nb],
    ensures
        search_inv(
            enter_cost,
            start,
            dist.update(nb, next),
            prev.update(nb, node as usize),
            done,
            wit.update(nb, wit[node].push(nb)),
        ),
{
    reveal(search_inv);
    lemma_settled_not_improvable(enter_cost, start, dist, prev, done, wit, node, nb);
    let d2 = dist.update(nb, next);
    let p2 = prev.update(nb, node as usize);
    let w2 = wit.update(nb, wit[node].push(nb));
    assert(nb != start);
    assert forall|v: int|
        #![trigger d2[v]]
        #![trigger w2[v]]
        in_room(v) && d2[v] < u64::MAX implies {
            &&& is_walk(enter_cost, start, w2[v])
            &&& walk_end(start, w2[v]) == v
            &&& walk_cost(enter_cost, w2[v]) == d2[v] as int
        } by {
        if v != nb {
            assert(d2[v] == dist[v]);
            assert(w2[v] == wit[v]);
        }
    }
    assert forall|v: int|
        #![trigger p2[v]]
        in_room(v) && v != start && d2[v] < u64::MAX implies {
            &&& p2[v] < room_area()
            &&& done[p2[v] as int]
            &&& w2[v] == w2[p2[v] as int].push(v)
        } by {
        if v != nb {
            assert(d2[v] == dist[v]);
            assert(p2[v] == prev[v]);
            assert(dist[v] < u64::MAX);
            assert(done[prev[v] as int]);
            assert(prev[v] as int != nb);
        } else {
            assert(node != nb);
        }
    }
    assert forall|u: int| #![trigger done[u]] in_room(u) && done[u] implies d2[u] < u64::MAX
        && settled_optimal(enter_cost, start, d2, u) by {
        assert(u != nb);
        assert(settled_optimal(enter_cost, start, dist, u));
        assert(d2[u] == dist[u]);
    }
}

/// Relax one neighbour `nb` of the settled tile `node`.
fn relax_one(
    enter_cost: &Vec<Option<u64>>,
    node: usize,
    nb: usize,
    dist: &mut Vec<u64>,
    prev: &mut Vec<usize>,
    Ghost(start): Ghost<int>,
    Ghost(done): Ghost<Seq<bool>>,
    Ghost(wit): Ghost<Seq<Seq<int>>>,
) -> (new_wit: Ghost<Seq<Seq<int>>>)
    requires
        search_inv(enter_cost@, start, old(dist)@, old(prev)@, done, wit),
        wit_settled(start, old(dist)@, done, wit),
        node < room_area(),
        done[node as int],
        adjacent(node as int, nb as int),
    ensures
        search_inv(enter_cost@, start, final(dist)@, final(prev)@, done, new_wit@),
        wit_settled(start, final(dist)@, done, new_wit@),
        forall|v: int| #![trigger final(dist)@[v]] in_room(v) && v != nb ==> final(dist)@[v] == old(dist)@[v],
        final(dist)@[nb as int] <= old(dist)@[nb as int],
        done[nb as int] ==> final(dist)@[nb as int] == old(dist)@[nb as int],
        passable(enter_cost@, nb as int) ==> final(dist)@[nb as int] as int <= capped(
            old(dist)@[node as int] + step_cost(enter_cost@, nb as int),
        ),
{
    proof {
        lemma_inv_basics(enter_cost@, start, dist@, prev@, done, wit);
    }
    match enter_cost[nb] {
        Some(step) => {
            let next = dist[node].saturating_add(step);
            if next < dist[nb] {
                proof {
                    lemma_settled_not_improvable(
                        enter_cost@,
                        start,
                        dist@,
                        prev@,
                        done,
                        wit,
                        node as int,
                        nb as int,
                    );
                    lemma_relax_update(
                        enter_cost@,
                        start,
                        dist@,
                        prev@,
                        done,
                        wit,
                        node as int,
                        nb as int,
                        next,
                    );
                    lemma_wit_settled_relax(
                        enter_cost@,
                        start,
                        dist@,
                        prev@,
                        done,
                        wit,
                        node as int,
                        nb as int,
                        next,
                    );
                }
                let ghost w = wit.update(nb as int, wit[node as int].push(nb as int));
                dist.set(nb, next);
                prev.set(nb, node);
                return Ghost(w);
            }
            Ghost(wit)
        },
        None => Ghost(wit),
    }
}

/// Relax the 8 neighbours of the just-settled tile `node`.
fn relax_neighbors(
    enter_cost: &Vec<Option<u64>>,
    node: usize,
    dist: &mut Vec<u64>,
    prev: &mut Vec<usize>,
    Ghost(start): Ghost<int>,
    Ghost(done): Ghost<Seq<bool>>,
    Ghost(wit): Ghost<Seq<Seq<int>>>,
) -> (new_wit: Ghost<Seq<Seq<int>>>)
    requires
        search_inv(enter_cost@, start, old(dist)@, old(prev)@, done, wit),
        wit_settled(start, old(dist)@, done, wit),
        node < room_area(),
        done[node as int],
        forall|p: int|
            #![trigger done[p]]
            in_room(p) && done[p] && p != node ==> relaxed_from(enter_cost@, old(dist)@, p),
    ensures
        search_inv(enter_cost@, start, final(dist)@, final(prev)@, done, new_wit@),
        wit_settled(start, final(dist)@, done, new_wit@),
        forall|p: int|
            #![trigger done[p]]
            in_room(p) && done[p] ==> relaxed_from(enter_cost@, final(dist)@, p),
{
    let x = node % 50;
    let y = node / 50;
    proof {
        lemma_tile_coords(node as int);
    }
    let ghost mut w = wit;
    let ghost dist0 = dist@;
    let mut d: usize = 0;
    while d < 9
        invariant
            0 <= d <= 9,
            node < room_area(),
            x == tile_x(node as int),
            y == tile_y(node as int),
            done[node as int],
            dist0 == old(dist)@,
            search_inv(enter_cost@, start, dist@, prev@, done, w),
            wit_settled(start, dist@, done, w),
            forall|p: int| #![trigger done[p]] in_room(p) && done[p] ==> dist@[p] == dist0[p],
            forall|v: int| #![trigger dist@[v]] in_room(v) ==> dist@[v] <= dist0[v],
            forall|p: int|
                #![trigger done[p]]
                in_room(p) && done[p] && p != node ==> relaxed_from(enter_cost@, dist0, p),
            forall|v: int|
                #![trigger adjacent(node as int, v)]
                adjacent(node as int, v) && passable(enter_cost@, v) && neighbour_slot(node as int, v)
                    < d ==> dist@[v] as int <= capped(dist0[node as int] + step_cost(enter_cost@, v)),
        decreases 9 - d,
    {
        let dx = d / 3;
        let dy = d % 3;
        let ghost dist_before = dist@;
        if !(dx == 1 && dy == 1) && x + dx >= 1 && x + dx <= 50 && y + dy >= 1 && y + dy <= 50 {
            let nx = x + dx - 1;
            let ny = y + dy - 1;
            let nb = ny * 50 + nx;
            proof {
                lemma_tile_index(nx as int, ny as int);
                assert(nb as int != node as int);
            }
            let r = relax_one(enter_cost, node, nb, dist, prev, Ghost(start), Ghost(done), Ghost(w));
            proof {
                w = r@;
                assert forall|v: int|
                    #![trigger adjacent(node as int, v)]
                    adjacent(node as int, v) && passable(enter_cost@, v) && neighbour_slot(node as int, v)
                        < d + 1 implies dist@[v] as int <= capped(dist0[node as int] + step_cost(enter_cost@, v)) by {
                    if neighbour_slot(node as int, v) == d as int {
                        lemma_slot_neighbour(node as int, v, d as int);
                        assert(v == nb as int);
                    } else {
                        assert(dist@[v] == dist_before[v]);
                    }
                }
            }
        } else {
            proof {
                assert forall|v: int|
                    #![trigger adjacent(node as int, v)]
                    adjacent(node as int, v) && passable(enter_cost@, v) && neighbour_slot(node as int, v)
                        < d + 1 implies dist@[v] as int <= capped(dist0[node as int] + step_cost(enter_cost@, v)) by {
                    if neighbour_slot(node as int, v) == d as int {
                        lemma_slot_neighbour(node as int, v, d as int);
                        lemma_tile_coords(v);
                    }
                }
            }
        }
        d += 1;
    }
    proof {
        assert forall|p: int| #![trigger done[p]] in_room(p) && done[p] implies relaxed_from(
            enter_cost@,
            dist@,
            p,
        ) by {
            assert forall|v: int| #![trigger adjacent(p, v)] adjacent(p, v) && passable(enter_cost@, v)
                implies dist@[v] as int <= capped(dist@[p] + step_cost(enter_cost@, v)) by {
                if p == node as int {
                    lemma_slot_neighbour(node as int, v, neighbour_slot(node as int, v));
                } else {
                    assert(relaxed_from(enter_cost@, dist0, p));
                    assert(dist@[v] <= dist0[v]);
                }
            }
        }
    }
    Ghost(w)
}

/// Settling an unsettled, reached tile whose distance no walk beats keeps
/// the search state.
proof fn lemma_settle(
    enter_cost: Seq<Option<u64>>,
    start: int,
    dist: Seq<u64>,
    prev: Seq<usize>,
    done: Seq<bool>,
    wit: Seq<Seq<int>>,
    b: int,
)
    requires
        search_inv(enter_cost, start, dist, prev, done, wit),
        in_room(b),
        dist[b] < u64::MAX,
        settled_optimal(enter_cost, start, dist, b),
    ensures
        search_inv(enter_cost, start, dist, prev, done.update(b, true), wit),
{
    reveal(search_inv);
    let d2 = done.update(b, true);
    assert forall|v: int|
        #![trigger prev[v]]
        in_room(v) && v != start && dist[v] < u64::MAX implies {
            &&& prev[v] < room_area()
            &&& d2[prev[v] as int]
            &&& wit[v] == wit[prev[v] as int].push(v)
        } by {
        assert(done[prev[v] as int]);
    }
    assert forall|u: int| #![trigger d2[u]] in_room(u) && d2[u] implies dist[u] < u64::MAX
        && settled_optimal(enter_cost, start, dist, u) by {
        if u != b {
            assert(done[u]);
        }
    }
}

/// The state right after settling the start tile.
proof fn lemma_initial_state(
    enter_cost: Seq<Option<u64>>,
    start: int,
    dist: Seq<u64>,
    prev: Seq<usize>,
    done: Seq<bool>,
    wit: Seq<Seq<int>>,
)
    requires
        enter_cost.len() == room_area(),
        dist.len() == room_area(),
        prev.len() == room_area(),
        done.len() == room_area(),
        wit.len() == room_area(),
        in_room(start),
        forall|v: int| 0 <= v < room_area() ==> dist[v] == if v == start { 0 } else { u64::MAX },
        forall|v: int| 0 <= v < room_area() ==> done[v] == (v == start),
        wit[start] == Seq::<int>::empty(),
    ensures
        search_inv(enter_cost, start, dist, prev, done, wit),
        forall|p: int|
            #![trigger done[p]]
            in_room(p) && done[p] && p != start ==> relaxed_from(enter_cost, dist, p),
{
    reveal(search_inv);
    assert(is_walk(enter_cost, start, Seq::<int>::empty()));
    assert forall|w: Seq<int>|
        #[trigger] is_walk(enter_cost, start, w) && walk_end(start, w) == start implies dist[start] as int
            <= walk_cost(enter_cost, w) by {
        lemma_walk_cost_nonneg(enter_cost, w);
    }
    assert(settled_optimal(enter_cost, start, dist, start));
}

/// Follow `prev` back from the settled tile `b` to the start: the walk's
/// coordinates in order.
fn reconstruct(
    prev: &Vec<usize>,
    b: usize,
    Ghost(enter_cost): Ghost<Seq<Option<u64>>>,
    start: usize,
    Ghost(dist): Ghost<Seq<u64>>,
    Ghost(done): Ghost<Seq<bool>>,
    Ghost(wit): Ghost<Seq<Seq<int>>>,
) -> (path: Vec<(u8, u8)>)
    requires
        search_inv(enter_cost, start as int, dist, prev@, done, wit),
        in_room(b as int),
        dist[b as int] < u64::MAX,
    ensures
        path_tiles(path@) == wit[b as int],
        forall|i: int| 0 <= i < path@.len() ==> coord_in_room(#[trigger] path@[i]),
{
    reveal(search_inv);
    let ghost target = wit[b as int];
    let ghost len = target.len();
    let mut rev: Vec<(u8, u8)> = Vec::new();
    let mut node = b;
    let s = start;
    proof {
        assert(target.take(len as int) =~= target);
    }
    while node != s
        invariant
            search_inv(enter_cost, start as int, dist, prev@, done, wit),
            s == start,
            in_room(node as int),
            dist[node as int] < u64::MAX,
            target == wit[b as int],
            len == target.len(),
            rev@.len() <= len,
            wit[node as int] == target.take(len - rev@.len()),
            forall|i: int|
                0 <= i < rev@.len() ==> coord_in_room(#[trigger] rev@[i]) && tile_of(rev@[i]) == target[len
                    - 1 - i],
        decreases wit[node as int].len(),
    {
        proof {
            reveal(search_inv);
        }
        let ghost wn = wit[node as int];
        let p = prev[node];
        proof {
            assert(wn == wit[p as int].push(node as int));
            assert(done[p as int]);
            lemma_tile_coords(node as int);
            assert(wn.last() == node as int);
            assert(wn.len() >= 1);
            assert(len - rev@.len() >= 1);
            assert(target[len - 1 - rev@.len()] == wn[wn.len() - 1]);
            assert(wit[p as int] =~= wn.drop_last());
            assert(wn.drop_last() =~= target.take(len - rev@.len() - 1));
        }
        let c = ((node % 50) as u8, (node / 50) as u8);
        rev.push(c);
        node = p;
    }
    proof {
        assert(wit[start as int] == Seq::<int>::empty());
        assert(rev@.len() == len);
    }
    let mut path: Vec<(u8, u8)> = Vec::new();
    let mut i = rev.len();
    while i > 0
        invariant
            0 <= i <= rev@.len(),
            rev@.len() == len,
            path@.len() == len - i,
            forall|j: int|
                0 <= j < rev@.len() ==> coord_in_room(#[trigger] rev@[j]) && tile_of(rev@[j]) == target[len
                    - 1 - j],
            forall|j: int| 0 <= j < path@.len() ==> #[trigger] path@[j] == rev@[len - 1 - j],
        decreases i,
    {
        i -= 1;
        path.push(rev[i]);
    }
    proof {
        assert forall|j: int| 0 <= j < path@.len() implies coord_in_room(#[trigger] path@[j]) by {
            assert(path@[j] == rev@[len - 1 - j]);
        }
        assert(path_tiles(path@) =~= target) by {
            assert forall|j: int| 0 <= j < path@.len() implies path_tiles(path@)[j] == target[j] by {
                assert(path@[j] == rev@[len - 1 - j]);
            }
        }
    }
    path
}

/// Min-cost path across one room from `start` to within `goal_range`
/// (Chebyshev) of `goal`, moving in 8 directions. `enter_cost[y * 50 + x]`
/// prices stepping ONTO tile (x, y) (`None` = impassable); the start tile
/// itself is never priced. Returns the path tiles in walk order, EXCLUDING
/// `start` (empty when `start` already satisfies the goal), or `None` when
/// no route exists. Running totals saturate at `u64::MAX`, so a route whose
/// price reaches `u64::MAX` counts as no route. Equal-cost routes resolve
/// the same way every time: tiles are settled in (cost, tile index) order.
pub fn room_grid_dijkstra(
    enter_cost: &Vec<Option<u64>>,
    start: (u8, u8),
    goal: (u8, u8),
    goal_range: u8,
) -> (r: Option<Vec<(u8, u8)>>)
    requires
        enter_cost@.len() == room_area(),
        coord_in_room(start),
    ensures
        satisfies_goal(tile_of(start), goal, goal_range) ==> (r matches Some(p) && p@.len() == 0),
        r is None <==> forall|w: Seq<int>|
            #[trigger] is_walk(enter_cost@, tile_of(start), w) && satisfies_goal(
                walk_end(tile_of(start), w),
                goal,
                goal_range,
            ) ==> walk_cost(enter_cost@, w) >= u64::MAX,
        r matches Some(p) ==> {
            &&& forall|i: int| 0 <= i < p@.len() ==> coord_in_room(#[trigger] p@[i])
            &&& is_walk(enter_cost@, tile_of(start), path_tiles(p@))
            &&& satisfies_goal(walk_end(tile_of(start), path_tiles(p@)), goal, goal_range)
            &&& walk_cost(enter_cost@, path_tiles(p@)) < u64::MAX
            &&& forall|i: int| 0 <= i < p@.len() ==> tile_of(#[trigger] p@[i]) != tile_of(start)
            &&& forall|i: int|
                0 <= i < p@.len() - 1 ==> !satisfies_goal(tile_of(#[trigger] p@[i]), goal, goal_range)
            &&& forall|w: Seq<int>|
                #[trigger] is_walk(enter_cost@, tile_of(start), w) && satisfies_goal(
                    walk_end(tile_of(start), w),
                    goal,
                    goal_range,
                ) ==> walk_cost(enter_cost@, path_tiles(p@)) <= walk_cost(enter_cost@, w)
        },
{
    let ghost ec = enter_cost@;
    let ghost st = tile_of(start);
    proof {
        lemma_tile_index(start.0 as int, start.1 as int);
    }
    if satisfies_goal_exec(start.0, start.1, goal, goal_range) {
        let p: Vec<(u8, u8)> = Vec::new();
        proof {
            assert(path_tiles(p@) =~= Seq::<int>::empty());
            assert(is_walk(ec, st, Seq::<int>::empty()));
            assert forall|w: Seq<int>|
                #[trigger] is_walk(ec, st, w) && satisfies_goal(walk_end(st, w), goal, goal_range) implies walk_cost(
                    ec,
                    path_tiles(p@),
                ) <= walk_cost(ec, w) by {
                lemma_walk_cost_nonneg(ec, w);
            }
            assert(!(forall|w: Seq<int>|
                #[trigger] is_walk(ec, st, w) && satisfies_goal(walk_end(st, w), goal, goal_range)
                    ==> walk_cost(ec, w) >= u64::MAX)) by {
                assert(is_walk(ec, st, Seq::<int>::empty()));
            }
        }
        return Some(p);
    }
    let s: usize = start.1 as usize * 50 + start.0 as usize;
    let mut dist: Vec<u64> = Vec::new();
    let mut prev: Vec<usize> = Vec::new();
    let mut done: Vec<bool> = Vec::new();
    let mut i: usize = 0;
    while i < 2500
        invariant
            0 <= i <= 2500,
            dist@.len() == i,
            prev@.len() == i,
            done@.len() == i,
            forall|v: int| 0 <= v < i ==> dist@[v] == u64::MAX,
            forall|v: int| 0 <= v < i ==> !done@[v],
        decreases 2500 - i,
    {
        dist.push(u64::MAX);
        prev.push(usize::MAX);
        done.push(false);
        i += 1;
    }
    dist.set(s, 0);
    done.set(s, true);
    let ghost mut wit: Seq<Seq<int>> = Seq::new(2500, |v: int| Seq::<int>::empty());
    proof {
        lemma_initial_state(ec, st, dist@, prev@, done@, wit);
        assert forall|v: int| #![trigger wit[v]] in_room(v) && dist@[v] < u64::MAX implies forall|i: int|
            0 <= i < wit[v].len() ==> #[trigger] wit[v][i] != st && in_room(wit[v][i]) && (i < wit[v].len() - 1
                ==> done@[wit[v][i]]) by {
            assert(wit[v].len() == 0);
        }
        assert(wit_settled(st, dist@, done@, wit));
    }
    let r = relax_neighbors(enter_cost, s, &mut dist, &mut prev, Ghost(st), Ghost(done@), Ghost(wit));
    proof {
        wit = r@;
        lemma_count_true_bound(done@);
        assert forall|u: int| #![trigger done@[u]] in_room(u) && done@[u] implies !satisfies_goal(
            u,
            goal,
            goal_range,
        ) by {
            assert(u == st);
        }
    }
    loop
        invariant
            ec == enter_cost@,
            st == tile_of(start),
            s as int == st,
            in_room(st),
            !satisfies_goal(st, goal, goal_range),
            search_inv(ec, st, dist@, prev@, done@, wit),
            wit_settled(st, dist@, done@, wit),
            forall|p: int| #![trigger done@[p]] in_room(p) && done@[p] ==> relaxed_from(ec, dist@, p),
            forall|u: int|
                #![trigger done@[u]]
                in_room(u) && done@[u] ==> !satisfies_goal(u, goal, goal_range),
            count_true(done@) <= room_area(),
        decreases room_area() - count_true(done@),
    {
        proof {
            lemma_inv_basics(ec, st, dist@, prev@, done@, wit);
        }
        let sel = select_min(&dist, &done);
        match sel {
            None => {
                proof {
                    assert forall|w: Seq<int>|
                        #[trigger] is_walk(ec, st, w) && satisfies_goal(walk_end(st, w), goal, goal_range)
                            implies walk_cost(ec, w) >= u64::MAX by {
                        if w.len() > 0 {
                            assert(w[w.len() - 1] == w.last());
                            assert(passable(ec, w.last()));
                        }
                        assert(in_room(walk_end(st, w)));
                        let k = lemma_frontier(ec, st, dist@, prev@, done@, wit, w);
                    }
                }
                return None;
            },
            Some(b) => {
                let ghost bi = b as int;
                proof {
                    assert forall|w: Seq<int>|
                        #[trigger] is_walk(ec, st, w) && in_room(walk_end(st, w)) && !done@[walk_end(
                            st,
                            w,
                        )] implies dist@[bi] as int <= walk_cost(ec, w) by {
                        let k = lemma_frontier(ec, st, dist@, prev@, done@, wit, w);
                    }
                }
                let bx = (b % 50) as u8;
                let by = (b / 50) as u8;
                proof {
                    lemma_tile_coords(bi);
                }
                if satisfies_goal_exec(bx, by, goal, goal_range) {
                    let path = reconstruct(&prev, b, Ghost(ec), s, Ghost(dist@), Ghost(done@), Ghost(wit));
                    proof {
                        reveal(search_inv);
                        assert(path_tiles(path@) == wit[bi]);
                        assert forall|i: int| 0 <= i < path@.len() implies tile_of(#[trigger] path@[i]) != tile_of(
                            start,
                        ) && (i < path@.len() - 1 ==> !satisfies_goal(tile_of(path@[i]), goal, goal_range)) by {
                            assert(path_tiles(path@)[i] == tile_of(path@[i]));
                            assert(wit[bi][i] == tile_of(path@[i]));
                            if i < path@.len() - 1 {
                                assert(done@[wit[bi][i]]);
                                lemma_tile_coords(wit[bi][i]);
                            }
                        }
                        assert forall|w: Seq<int>|
                            #[trigger] is_walk(ec, st, w) && satisfies_goal(walk_end(st, w), goal, goal_range)
                                implies walk_cost(ec, path_tiles(path@)) <= walk_cost(ec, w) by {
                            if w.len() > 0 {
                                assert(w[w.len() - 1] == w.last());
                                assert(passable(ec, w.last()));
                            }
                            assert(in_room(walk_end(st, w)));
                        }
                        assert(!(forall|w: Seq<int>|
                            #[trigger] is_walk(ec, st, w) && satisfies_goal(walk_end(st, w), goal, goal_range)
                                ==> walk_cost(ec, w) >= u64::MAX)) by {
                            assert(is_walk(ec, st, wit[bi]));
                        }
                    }
                    return Some(path);
                }
                proof {
                    assert(settled_optimal(ec, st, dist@, bi));
                    lemma_settle(ec, st, dist@, prev@, done@, wit, bi);
                    lemma_wit_settled_grow(st, dist@, done@, wit, bi);
                    lemma_count_true_set(done@, bi);
                    lemma_count_true_bound(done@.update(bi, true));
                }
                done.set(b, true);
                let r = relax_neighbors(enter_cost, b, &mut dist, &mut prev, Ghost(st), Ghost(done@), Ghost(wit));
                proof {
                    wit = r@;
                }
            },
        }
    }
}

/// A tile on the room border.
pub open spec fn is_edge_tile(t: int) -> bool {
    tile_x(t) == 0 || tile_y(t) == 0 || tile_x(t) == 49 || tile_y(t) == 49
}

/// `w` lists tiles a creep walks through from `start`, each passable and a
/// king's move from the one before (the start itself need not be passable).
pub open spec fn is_open_walk(passable: Seq<bool>, start: int, w: Seq<int>) -> bool {
    forall|i: int|
        #![trigger w[i]]
        0 <= i < w.len() ==> in_room(w[i]) && passable[w[i]] && adjacent(walk_before(start, w, i), w[i])
}

/// Some nonempty walk from `start` over passable tiles reaches the border.
pub open spec fn edge_reachable(passable: Seq<bool>, start: int) -> bool {
    exists|w: Seq<int>|
        #[trigger] is_open_walk(passable, start, w) && w.len() > 0 && is_edge_tile(w.last())
}

/// Flood-fill bookkeeping: the queue holds every visited tile once, in
/// visit order; `wit[v]` is a walk that reaches each visited tile.
#[verifier::opaque]
spec fn flood_inv(
    passable: Seq<bool>,
    start: int,
    visited: Seq<bool>,
    queue: Seq<usize>,
    pos: Seq<int>,
    wit: Seq<Seq<int>>,
) -> bool {
    &&& passable.len() == room_area()
    &&& visited.len() == room_area()
    &&& pos.len() == room_area()
    &&& wit.len() == room_area()
    &&& count_true(visited) == queue.len()
    &&& forall|j: int|
        #![trigger queue[j]]
        0 <= j < queue.len() ==> in_room(queue[j] as int) && visited[queue[j] as int]
    &&& forall|v: int|
        #![trigger visited[v]]
        in_room(v) && visited[v] ==> {
            &&& 0 <= pos[v] < queue.len()
            &&& queue[pos[v]] as int == v
            &&& wit[v].len() > 0
            &&& is_open_walk(passable, start, wit[v])
            &&& wit[v].last() == v
        }
}

/// Every passable neighbour of `u` has been visited.
spec fn flood_closed(passable: Seq<bool>, visited: Seq<bool>, u: int) -> bool {
    forall|v: int| #![trigger adjacent(u, v)] adjacent(u, v) && passable[v] ==> visited[v]
}

proof fn lemma_open_walk_push(passable: Seq<bool>, start: int, w: Seq<int>, t: int)
    requires
        is_open_walk(passable, start, w),
        in_room(t),
        passable[t],
        adjacent(walk_end(start, w), t),
    ensures
        is_open_walk(passable, start, w.push(t)),
{
    let w2 = w.push(t);
    assert forall|i: int| 0 <= i < w2.len() implies in_room(w2[i]) && passable[w2[i]] && adjacent(
        walk_before(start, w2, i),
        w2[i],
    ) by {
        if i < w.len() {
            assert(w2[i] == w[i]);
            if i > 0 {
                assert(w2[i - 1] == w[i - 1]);
            }
        }
    }
}

/// Visit the passable, unvisited neighbours of `node`, appending them to the
/// queue; `base` is a walk that ends on `node`, and `done` the entries
/// already taken off the queue's front.
fn push_passable_neighbours(
    passable: &Vec<bool>,
    node: usize,
    visited: &mut Vec<bool>,
    queue: &mut VecDeque<usize>,
    Ghost(done): Ghost<Seq<usize>>,
    Ghost(start): Ghost<int>,
    Ghost(base): Ghost<Seq<int>>,
    Ghost(pos): Ghost<Seq<int>>,
    Ghost(wit): Ghost<Seq<Seq<int>>>,
) -> (r: Ghost<(Seq<int>, Seq<Seq<int>>)>)
    requires
        flood_inv(passable@, start, old(visited)@, (done + old(queue)@), pos, wit),
        in_room(node as int),
        is_open_walk(passable@, start, base),
        walk_end(start, base) == node as int,
    ensures
        flood_inv(passable@, start, final(visited)@, (done + final(queue)@), r@.0, r@.1),
        flood_closed(passable@, final(visited)@, node as int),
        forall|v: int| #![trigger old(visited)@[v]] in_room(v) && old(visited)@[v] ==> final(visited)@[v],
        (done + final(queue)@).len() >= (done + old(queue)@).len(),
        forall|j: int| 0 <= j < (done + old(queue)@).len() ==> #[trigger] (done + final(queue)@)[j] == (done + old(queue)@)[j],
{
    let x = node % 50;
    let y = node / 50;
    proof {
        lemma_tile_coords(node as int);
        reveal(flood_inv);
    }
    let ghost mut pos = pos;
    let ghost mut wit = wit;
    let ghost visited0 = visited@;
    let ghost queue0 = (done + queue@);
    let mut d: usize = 0;
    while d < 9
        invariant
            0 <= d <= 9,
            in_room(node as int),
            x == tile_x(node as int),
            y == tile_y(node as int),
            is_open_walk(passable@, start, base),
            walk_end(start, base) == node as int,
            visited0 == old(visited)@,
            queue0 == (done + old(queue)@),
            flood_inv(passable@, start, visited@, (done + queue@), pos, wit),
            forall|v: int| #![trigger visited0[v]] in_room(v) && visited0[v] ==> visited@[v],
            (done + queue@).len() >= queue0.len(),
            forall|j: int| 0 <= j < queue0.len() ==> #[trigger] (done + queue@)[j] == queue0[j],
            forall|v: int|
                #![trigger adjacent(node as int, v)]
                adjacent(node as int, v) && passable@[v] && neighbour_slot(node as int, v) < d
                    ==> visited@[v],
        decreases 9 - d,
    {
        let dx = d / 3;
        let dy = d % 3;
        if !(dx == 1 && dy == 1) && x + dx >= 1 && x + dx <= 50 && y + dy >= 1 && y + dy <= 50 {
            let nx = x + dx - 1;
            let ny = y + dy - 1;
            let nb = ny * 50 + nx;
            proof {
                lemma_tile_index(nx as int, ny as int);
                assert(nb as int != node as int);
                assert(adjacent(node as int, nb as int));
            }
            proof {
                reveal(flood_inv);
            }
            if !visited[nb] && passable[nb] {
                let ghost vis_before = visited@;
                let ghost q_before = (done + queue@);
                proof {
                    lemma_count_true_set(visited@, nb as int);
                    lemma_open_walk_push(passable@, start, base, nb as int);
                }
                visited.set(nb, true);
                queue.push_back(nb);
                proof {
                    assert((done + queue@) =~= q_before.push(nb));
                    pos = pos.update(nb as int, q_before.len() as int);
                    wit = wit.update(nb as int, base.push(nb as int));
                    assert forall|j: int| #![trigger (done + queue@)[j]] 0 <= j < (done + queue@).len() implies in_room(
                        (done + queue@)[j] as int,
                    ) && visited@[(done + queue@)[j] as int] by {
                        if j < q_before.len() {
                            assert((done + queue@)[j] == q_before[j]);
                        }
                    }
                    assert forall|v: int| #![trigger visited@[v]] in_room(v) && visited@[v] implies {
                        &&& 0 <= pos[v] < (done + queue@).len()
                        &&& (done + queue@)[pos[v]] as int == v
                        &&& wit[v].len() > 0
                        &&& is_open_walk(passable@, start, wit[v])
                        &&& wit[v].last() == v
                    } by {
                        if v != nb as int {
                            assert(vis_before[v]);
                        }
                    }
                }
            }
            proof {
                assert forall|v: int|
                    #![trigger adjacent(node as int, v)]
                    adjacent(node as int, v) && passable@[v] && neighbour_slot(node as int, v) < d + 1
                        implies visited@[v] by {
                    if neighbour_slot(node as int, v) == d as int {
                        lemma_slot_neighbour(node as int, v, d as int);
                        assert(v == nb as int);
                    }
                }
            }
        } else {
            proof {
                assert forall|v: int|
                    #![trigger adjacent(node as int, v)]
                    adjacent(node as int, v) && passable@[v] && neighbour_slot(node as int, v) < d + 1
                        implies visited@[v] by {
                    if neighbour_slot(node as int, v) == d as int {
                        lemma_slot_neighbour(node as int, v, d as int);
                        lemma_tile_coords(v);
                    }
                }
            }
        }
        d += 1;
    }
    proof {
        reveal(flood_inv);
        assert forall|v: int| #![trigger adjacent(node as int, v)] adjacent(node as int, v) && passable@[v]
            implies visited@[v] by {
            lemma_slot_neighbour(node as int, v, neighbour_slot(node as int, v));
        }
    }
    Ghost((pos, wit))
}

proof fn lemma_count_true_none(s: Seq<bool>)
    requires
        forall|i: int| 0 <= i < s.len() ==> !s[i],
    ensures
        count_true(s) == 0,
    decreases s.len(),
{
    if s.len() > 0 {
        lemma_count_true_none(s.drop_last());
    }
}

/// When every visited tile has been expanded, a walk from `start` never
/// leaves the visited set.
proof fn lemma_walk_stays_visited(
    passable: Seq<bool>,
    visited: Seq<bool>,
    start: int,
    w: Seq<int>,
    i: int,
)
    requires
        is_open_walk(passable, start, w),
        0 <= i < w.len(),
        flood_closed(passable, visited, start),
        forall|v: int|
            #![trigger visited[v]]
            in_room(v) && visited[v] ==> flood_closed(passable, visited, v),
    ensures
        visited[w[i]],
    decreases i,
{
    if i == 0 {
        assert(adjacent(start, w[0]));
    } else {
        lemma_walk_stays_visited(passable, visited, start, w, i - 1);
        assert(adjacent(w[i - 1], w[i]));
        assert(in_room(w[i - 1]));
        assert(flood_closed(passable, visited, w[i - 1]));
    }
}

proof fn lemma_flood_basics(
    passable: Seq<bool>,
    start: int,
    visited: Seq<bool>,
    queue: Seq<usize>,
    pos: Seq<int>,
    wit: Seq<Seq<int>>,
)
    requires
        flood_inv(passable, start, visited, queue, pos, wit),
    ensures
        passable.len() == room_area(),
        visited.len() == room_area(),
        count_true(visited) == queue.len(),
        queue.len() <= room_area(),
        forall|j: int|
            #![trigger queue[j]]
            0 <= j < queue.len() ==> in_room(queue[j] as int) && visited[queue[j] as int],
        forall|v: int|
            #![trigger visited[v]]
            in_room(v) && visited[v] ==> {
                &&& 0 <= pos[v] < queue.len()
                &&& queue[pos[v]] as int == v
                &&& wit[v].len() > 0
                &&& is_open_walk(passable, start, wit[v])
                &&& wit[v].last() == v
            },
{
    reveal(flood_inv);
    lemma_count_true_bound(visited);
}

/// An exhausted queue whose every entry was expanded and not on the border
/// means no walk from `start` reaches the border.
proof fn lemma_flood_exhausted(
    passable: Seq<bool>,
    start: int,
    visited: Seq<bool>,
    queue: Seq<usize>,
    pos: Seq<int>,
    wit: Seq<Seq<int>>,
)
    requires
        flood_inv(passable, start, visited, queue, pos, wit),
        flood_closed(passable, visited, start),
        forall|j: int|
            0 <= j < queue.len() ==> !is_edge_tile(#[trigger] queue[j] as int) && flood_closed(
                passable,
                visited,
                queue[j] as int,
            ),
    ensures
        !edge_reachable(passable, start),
{
    lemma_flood_basics(passable, start, visited, queue, pos, wit);
    assert forall|v: int| #![trigger visited[v]] in_room(v) && visited[v] implies flood_closed(
        passable,
        visited,
        v,
    ) by {
        assert(queue[pos[v]] as int == v);
    }
    assert forall|w: Seq<int>| #[trigger] is_open_walk(passable, start, w) && w.len() > 0 implies !is_edge_tile(
        w.last(),
    ) by {
        lemma_walk_stays_visited(passable, visited, start, w, w.len() - 1);
        let v = w[w.len() - 1];
        assert(in_room(v));
        assert(queue[pos[v]] as int == v);
    }
}

/// Expanding one more tile only grows the visited set, so tiles expanded
/// earlier stay closed.
proof fn lemma_closed_monotone(passable: Seq<bool>, v0: Seq<bool>, v1: Seq<bool>, u: int)
    requires
        flood_closed(passable, v0, u),
        v0.len() == room_area(),
        forall|v: int| #![trigger v0[v]] in_room(v) && v0[v] ==> v1[v],
    ensures
        flood_closed(passable, v1, u),
{
    assert forall|v: int| #![trigger adjacent(u, v)] adjacent(u, v) && passable[v] implies v1[v] by {
        assert(v0[v]);
    }
}

fn is_edge_exec(t: usize) -> (r: bool)
    requires
        in_room(t as int),
    ensures
        r == is_edge_tile(t as int),
{
    let x = t % 50;
    let y = t / 50;
    x == 0 || y == 0 || x == 49 || y == 49
}

/// True if a creep can walk from any room-edge tile to within range 1 of
/// `start`, over `passable[y * 50 + x]` tiles in 8 directions (a flood
/// fill). `start` itself is NOT required passable — it may be a structure
/// tile such as a controller — the flood seeds from its passable
/// neighbours.
pub fn reaches_room_edge(passable: &Vec<bool>, start: (u8, u8)) -> (r: bool)
    requires
        passable@.len() == room_area(),
        coord_in_room(start),
    ensures
        r == edge_reachable(passable@, tile_of(start)),
{
    let ghost st = tile_of(start);
    proof {
        lemma_tile_index(start.0 as int, start.1 as int);
    }
    let s: usize = start.1 as usize * 50 + start.0 as usize;
    let mut visited: Vec<bool> = Vec::new();
    let mut i: usize = 0;
    while i < 2500
        invariant
            0 <= i <= 2500,
            visited@.len() == i,
            forall|v: int| 0 <= v < i ==> !visited@[v],
        decreases 2500 - i,
    {
        visited.push(false);
        i += 1;
    }
    let mut queue: VecDeque<usize> = VecDeque::new();
    let ghost mut done: Seq<usize> = Seq::empty();
    let ghost mut pos: Seq<int> = Seq::new(2500, |v: int| 0int);
    let ghost mut wit: Seq<Seq<int>> = Seq::new(2500, |v: int| Seq::<int>::empty());
    proof {
        lemma_count_true_none(visited@);
        assert(is_open_walk(passable@, st, Seq::<int>::empty()));
        assert(done + queue@ =~= Seq::<usize>::empty());
        reveal(flood_inv);
    }
    let r = push_passable_neighbours(
        passable,
        s,
        &mut visited,
        &mut queue,
        Ghost(done),
        Ghost(st),
        Ghost(Seq::<int>::empty()),
        Ghost(pos),
        Ghost(wit),
    );
    proof {
        pos = r@.0;
        wit = r@.1;
    }
    loop
        invariant
            st == tile_of(start),
            s as int == st,
            in_room(st),
            flood_inv(passable@, st, visited@, done + queue@, pos, wit),
            flood_closed(passable@, visited@, st),
            forall|j: int|
                0 <= j < done.len() ==> !is_edge_tile(#[trigger] (done + queue@)[j] as int) && flood_closed(
                    passable@,
                    visited@,
                    (done + queue@)[j] as int,
                ),
        decreases room_area() - done.len(),
    {
        proof {
            lemma_flood_basics(passable@, st, visited@, done + queue@, pos, wit);
        }
        let ghost q0 = queue@;
        let popped = queue.pop_front();
        let node = match popped {
            None => {
                proof {
                    assert(done + queue@ =~= done);
                    lemma_flood_exhausted(passable@, st, visited@, done + queue@, pos, wit);
                }
                return false;
            },
            Some(node) => node,
        };
        proof {
            assert(done.push(node) + queue@ =~= done + q0);
            assert((done + q0)[done.len() as int] == node);
            done = done.push(node);
        }
        if is_edge_exec(node) {
            proof {
                assert(visited@[node as int]);
                let w = wit[node as int];
                assert(is_open_walk(passable@, st, w) && w.len() > 0 && is_edge_tile(w.last()));
            }
            return true;
        }
        let ghost base = wit[node as int];
        let ghost vis_before = visited@;
        let ghost q_before = done + queue@;
        proof {
            assert(visited@[node as int]);
            assert(wit[node as int].len() > 0);
        }
        let r = push_passable_neighbours(
            passable,
            node,
            &mut visited,
            &mut queue,
            Ghost(done),
            Ghost(st),
            Ghost(base),
            Ghost(pos),
            Ghost(wit),
        );
        proof {
            pos = r@.0;
            wit = r@.1;
            assert forall|j: int|
                0 <= j < done.len() implies !is_edge_tile(#[trigger] (done + queue@)[j] as int) && flood_closed(
                    passable@,
                    visited@,
                    (done + queue@)[j] as int,
                ) by {
                assert((done + queue@)[j] == q_before[j]);
                if j < done.len() - 1 {
                    lemma_closed_monotone(passable@, vis_before, visited@, q_before[j] as int);
                }
            }
            lemma_closed_monotone(passable@, vis_before, visited@, st);
            lemma_flood_basics(passable@, st, visited@, done + queue@, pos, wit);
        }
    }
}

} // verus!
