//! The per-tick repair queue. Missions post repair requests; creeps and
//! towers take the most urgent request of a room: the highest priority,
//! and among equal priorities the structure with the lowest hits fraction.
//!
//! The queue maps each room (by its packed name) to the requests posted
//! for it, in the order they were posted.
use vstd::prelude::*;
use crate::geometry::{Position, RoomName};
use std::collections::HashMap;

verus! {

broadcast use vstd::std_specs::hash::group_hash_axioms;

/// An object somewhere in the world, by its id and its position.
#[derive(Clone, Copy, Debug, PartialEq, Eq, Hash, Structural)]
pub struct RemoteObjectId {
    pub id: u128,
    pub position: Position,
}

impl RemoteObjectId {
    pub fn new_from_components(id: u128, position: Position) -> (r: RemoteObjectId)
        ensures
            r.id == id,
            r.position == position,
    {
        RemoteObjectId { id, position }
    }

    pub fn id(&self) -> (r: u128)
        ensures
            r == self.id,
    {
        self.id
    }

    pub fn pos(&self) -> (r: Position)
        ensures
            r == self.position,
    {
        self.position
    }
}

/// How urgently a structure needs repair.
#[derive(Clone, Copy, Debug, PartialEq, Eq, Hash, PartialOrd, Ord, Structural)]
pub enum RepairPriority {
    Low,
    Medium,
    High,
    Critical,
}

impl RepairPriority {
    /// Position in the order `Low < Medium < High < Critical`.
    pub open spec fn spec_rank(self) -> int {
        match self {
            RepairPriority::Low => 0,
            RepairPriority::Medium => 1,
            RepairPriority::High => 2,
            RepairPriority::Critical => 3,
        }
    }

    pub fn rank(&self) -> (r: u8)
        ensures
            r == self.spec_rank(),
    {
        match self {
            RepairPriority::Low => 0,
            RepairPriority::Medium => 1,
            RepairPriority::High => 2,
            RepairPriority::Critical => 3,
        }
    }
}

/// A repair request posted by a mission.
#[derive(Clone, Copy, Debug, PartialEq, Eq, Structural)]
pub struct RepairRequest {
    /// The structure to repair.
    pub structure_id: RemoteObjectId,
    pub priority: RepairPriority,
    /// Hits of the structure when the request was posted.
    pub current_hits: u32,
    pub max_hits: u32,
    /// The room the structure is in.
    pub room: RoomName,
}

/// Numerator of a request's hits fraction; a structure without a hits
/// maximum counts as undamaged (fraction 1).
pub open spec fn hp_num(r: RepairRequest) -> int {
    if r.max_hits > 0 {
        r.current_hits as int
    } else {
        1
    }
}

/// Denominator of a request's hits fraction (always positive).
pub open spec fn hp_den(r: RepairRequest) -> int {
    if r.max_hits > 0 {
        r.max_hits as int
    } else {
        1
    }
}

/// `a` has a strictly lower hits fraction than `b`.
pub open spec fn more_damaged(a: RepairRequest, b: RepairRequest) -> bool {
    hp_num(a) * hp_den(b) < hp_num(b) * hp_den(a)
}

/// `a` is strictly less urgent than `b`: a lower priority, or the same
/// priority and a higher hits fraction.
pub open spec fn ranks_below(a: RepairRequest, b: RepairRequest) -> bool {
    a.priority.spec_rank() < b.priority.spec_rank() || (a.priority.spec_rank()
        == b.priority.spec_rank() && more_damaged(b, a))
}

/// The request meets the optional minimum priority.
pub open spec fn admits(r: RepairRequest, minimum: Option<RepairPriority>) -> bool {
    match minimum {
        Some(m) => r.priority.spec_rank() >= m.spec_rank(),
        None => true,
    }
}

/// The request meets the minimum and (when `near` is given) lies within
/// its range of its position.
pub open spec fn eligible(r: RepairRequest, minimum: Option<RepairPriority>, near: Option<(Position, u32)>) -> bool {
    &&& admits(r, minimum)
    &&& match near {
        Some((p, range)) => r.structure_id.position.range_to(p) <= range,
        None => true,
    }
}

/// `s[i]` is the most urgent eligible request, and the last one posted
/// among those equally urgent.
pub open spec fn is_last_best(
    s: Seq<RepairRequest>,
    i: int,
    minimum: Option<RepairPriority>,
    near: Option<(Position, u32)>,
) -> bool {
    &&& 0 <= i < s.len()
    &&& eligible(s[i], minimum, near)
    &&& forall|j: int| 0 <= j < s.len() && eligible(#[trigger] s[j], minimum, near) ==> !ranks_below(s[i], s[j])
    &&& forall|j: int| i < j < s.len() && eligible(#[trigger] s[j], minimum, near) ==> ranks_below(s[j], s[i])
}

/// Some request meets the minimum.
pub open spec fn spec_has_requests(s: Seq<RepairRequest>, minimum: Option<RepairPriority>) -> bool {
    exists|i: int| 0 <= i < s.len() && eligible(#[trigger] s[i], minimum, None)
}

/// The requests at priority rank `rank`, in the order posted.
pub open spec fn requests_at(s: Seq<RepairRequest>, rank: int) -> Seq<RepairRequest>
    decreases s.len(),
{
    if s.len() == 0 {
        Seq::empty()
    } else {
        let rest = requests_at(s.drop_last(), rank);
        if s.last().priority.spec_rank() == rank {
            rest.push(s.last())
        } else {
            rest
        }
    }
}

/// The requests, highest priority first, each priority in the order
/// posted.
pub open spec fn by_priority(s: Seq<RepairRequest>) -> Seq<RepairRequest> {
    requests_at(s, 3) + requests_at(s, 2) + requests_at(s, 1) + requests_at(s, 0)
}

/// The requests posted for `room`, in order.
pub open spec fn room_seq(m: Map<u16, Seq<RepairRequest>>, room: RoomName) -> Seq<RepairRequest> {
    if m.contains_key(room.packed) {
        m[room.packed]
    } else {
        Seq::empty()
    }
}

/// `t` is `m` with `extra` posted after the requests of `room`, every
/// other room unchanged.
pub open spec fn posted_to(m: Map<u16, Seq<RepairRequest>>, room: RoomName, extra: Seq<RepairRequest>, t: Map<
    u16,
    Seq<RepairRequest>,
>) -> bool {
    forall|r: RoomName| #[trigger] room_seq(t, r) == if r == room {
        room_seq(m, room) + extra
    } else {
        room_seq(m, r)
    }
}

/// Fractions with positive denominators compare transitively.
proof fn lemma_fraction_le_trans(a: int, b: int, c: int, d: int, e: int, f: int)
    requires
        b > 0,
        d > 0,
        f > 0,
        a * d <= c * b,
        c * f <= e * d,
    ensures
        a * f <= e * b,
{
    assert(a * d * f <= c * b * f) by (nonlinear_arith)
        requires
            a * d <= c * b,
            f > 0,
    ;
    assert(c * f * b <= e * d * b) by (nonlinear_arith)
        requires
            c * f <= e * d,
            b > 0,
    ;
    assert(c * b * f == c * f * b) by (nonlinear_arith);
    assert((a * f) * d <= (e * b) * d) by (nonlinear_arith)
        requires
            a * d * f <= c * b * f,
            c * b * f == c * f * b,
            c * f * b <= e * d * b,
    ;
    assert(a * f <= e * b) by (nonlinear_arith)
        requires
            (a * f) * d <= (e * b) * d,
            d > 0,
    ;
}

/// "Not less urgent" is transitive.
proof fn lemma_not_below_trans(c: RepairRequest, b: RepairRequest, x: RepairRequest)
    requires
        !ranks_below(c, b),
        !ranks_below(b, x),
    ensures
        !ranks_below(c, x),
{
    if c.priority.spec_rank() == b.priority.spec_rank() && b.priority.spec_rank() == x.priority.spec_rank() {
        lemma_fraction_le_trans(hp_num(c), hp_den(c), hp_num(b), hp_den(b), hp_num(x), hp_den(x));
    }
}

/// Whether `a` has a strictly lower hits fraction than `b`.
fn more_damaged_exec(a: &RepairRequest, b: &RepairRequest) -> (r: bool)
    ensures
        r == more_damaged(*a, *b),
{
    let (an, ad): (u64, u64) = if a.max_hits > 0 {
        (a.current_hits as u64, a.max_hits as u64)
    } else {
        (1, 1)
    };
    let (bn, bd): (u64, u64) = if b.max_hits > 0 {
        (b.current_hits as u64, b.max_hits as u64)
    } else {
        (1, 1)
    };
    assert(an * bd <= u32::MAX as int * u32::MAX as int) by (nonlinear_arith)
        requires
            an <= u32::MAX,
            bd <= u32::MAX,
    ;
    assert(bn * ad <= u32::MAX as int * u32::MAX as int) by (nonlinear_arith)
        requires
            bn <= u32::MAX,
            ad <= u32::MAX,
    ;
    an * bd < bn * ad
}

/// Whether `a` is strictly less urgent than `b`.
fn ranks_below_exec(a: &RepairRequest, b: &RepairRequest) -> (r: bool)
    ensures
        r == ranks_below(*a, *b),
{
    let ra = a.priority.rank();
    let rb = b.priority.rank();
    ra < rb || (ra == rb && more_damaged_exec(b, a))
}

fn admits_exec(r: &RepairRequest, minimum: Option<RepairPriority>) -> (b: bool)
    ensures
        b == admits(*r, minimum),
{
    match minimum {
        Some(m) => r.priority.rank() >= m.rank(),
        None => true,
    }
}

fn eligible_exec(r: &RepairRequest, minimum: Option<RepairPriority>, near: Option<(Position, u32)>) -> (b: bool)
    ensures
        b == eligible(*r, minimum, near),
{
    admits_exec(r, minimum) && match near {
        Some((p, range)) => r.structure_id.position.get_range_to(p) <= range,
        None => true,
    }
}

/// The most urgent eligible request of `requests`, the last posted among
/// equals.
fn best_in(requests: &Vec<RepairRequest>, minimum: Option<RepairPriority>, near: Option<(Position, u32)>) -> (best:
    Option<RepairRequest>)
    ensures
        match best {
            None => forall|j: int| 0 <= j < requests@.len() ==> !eligible(#[trigger] requests@[j], minimum, near),
            Some(b) => exists|i: int| is_last_best(requests@, i, minimum, near) && requests@[i] == b,
        },
{
    let ghost s = requests@;
    let mut best_i: Option<usize> = None;
    let mut k: usize = 0;
    while k < requests.len()
        invariant
            s == requests@,
            0 <= k <= s.len(),
            match best_i {
                None => forall|j: int| 0 <= j < k ==> !eligible(#[trigger] s[j], minimum, near),
                Some(bi) => {
                    &&& bi < k
                    &&& eligible(s[bi as int], minimum, near)
                    &&& forall|j: int|
                        0 <= j < k && eligible(#[trigger] s[j], minimum, near) ==> !ranks_below(s[bi as int], s[j])
                    &&& forall|j: int|
                        bi < j < k && eligible(#[trigger] s[j], minimum, near) ==> ranks_below(s[j], s[bi as int])
                },
            },
        decreases s.len() - k,
    {
        let c = &requests[k];
        if eligible_exec(c, minimum, near) {
            match best_i {
                None => {
                    best_i = Some(k);
                },
                Some(bi) => {
                    if !ranks_below_exec(c, &requests[bi]) {
                        proof {
                            assert forall|j: int|
                                0 <= j < k + 1 && eligible(#[trigger] s[j], minimum, near) implies !ranks_below(
                                s[k as int],
                                s[j],
                            ) by {
                                if j < k {
                                    lemma_not_below_trans(s[k as int], s[bi as int], s[j]);
                                }
                            }
                        }
                        best_i = Some(k);
                    }
                },
            }
        }
        k += 1;
    }
    match best_i {
        None => None,
        Some(bi) => {
            assert(is_last_best(s, bi as int, minimum, near));
            Some(requests[bi])
        },
    }
}

/// Append the requests of `requests` at priority `rank`, in order.
fn collect_at(requests: &Vec<RepairRequest>, rank: u8, out: &mut Vec<RepairRequest>)
    ensures
        final(out)@ == old(out)@ + requests_at(requests@, rank as int),
{
    let ghost s = requests@;
    let ghost start = out@;
    let mut k: usize = 0;
    while k < requests.len()
        invariant
            s == requests@,
            0 <= k <= s.len(),
            out@ == start + requests_at(s.take(k as int), rank as int),
        decreases s.len() - k,
    {
        let r = requests[k];
        assert(s.take(k as int + 1).drop_last() == s.take(k as int));
        if r.priority.rank() == rank {
            out.push(r);
        }
        k += 1;
    }
    assert(s.take(s.len() as int) == s);
}

/// The repair requests posted this tick, by room.
pub struct RepairQueue {
    rooms: HashMap<u16, Vec<RepairRequest>>,
}

impl View for RepairQueue {
    type V = Map<u16, Seq<RepairRequest>>;

    closed spec fn view(&self) -> Map<u16, Seq<RepairRequest>> {
        self.rooms@.map_values(|v: Vec<RepairRequest>| v@)
    }
}

impl RepairQueue {
    pub fn new() -> (q: RepairQueue)
        ensures
            q@ == Map::<u16, Seq<RepairRequest>>::empty(),
    {
        let q = RepairQueue { rooms: HashMap::new() };
        assert(q@ =~= Map::<u16, Seq<RepairRequest>>::empty());
        q
    }

    /// The requests of `room`, if it has any.
    fn room_requests(&self, room: RoomName) -> (r: Option<&Vec<RepairRequest>>)
        ensures
            match r {
                Some(v) => v@ == room_seq(self@, room),
                None => room_seq(self@, room) == Seq::<RepairRequest>::empty(),
            },
    {
        proof {
            assert(vstd::std_specs::hash::obeys_key_model::<u16>());
        }
        self.rooms.get(&room.packed)
    }

    /// Post a repair request after the others of its room.
    pub fn request_repair(&mut self, request: RepairRequest)
        ensures
            posted_to(old(self)@, request.room, seq![request], final(self)@),
    {
        proof {
            assert(vstd::std_specs::hash::obeys_key_model::<u16>());
        }
        let key = request.room.packed;
        let ghost before = self@;
        let mut v = match self.rooms.remove(&key) {
            Some(v) => v,
            None => Vec::new(),
        };
        assert(v@ == room_seq(before, request.room));
        v.push(request);
        self.rooms.insert(key, v);
        proof {
            assert forall|r: RoomName| #[trigger] room_seq(self@, r) == if r == request.room {
                room_seq(before, request.room) + seq![request]
            } else {
                room_seq(before, r)
            } by {
                if r == request.room {
                    assert(room_seq(before, request.room).push(request) =~= room_seq(before, request.room) + seq![
                        request,
                    ]);
                } else {
                    assert(r.packed != key);
                }
            }
        }
    }

    /// Post several repair requests, in order.
    pub fn request_repairs(&mut self, requests: Vec<RepairRequest>)
        ensures
            forall|r: RoomName| #[trigger] room_seq(final(self)@, r) == room_seq(old(self)@, r) + requests@.filter(
                |q: RepairRequest| q.room == r,
            ),
    {
        let mut k: usize = 0;
        while k < requests.len()
            invariant
                0 <= k <= requests@.len(),
                forall|r: RoomName| #[trigger] room_seq(self@, r) == room_seq(old(self)@, r) + requests@.take(
                    k as int,
                ).filter(|q: RepairRequest| q.room == r),
            decreases requests@.len() - k,
        {
            let ghost before = self@;
            let q = requests[k];
            self.request_repair(q);
            proof {
                assert(requests@.take(k as int + 1).drop_last() =~= requests@.take(k as int));
                assert forall|r: RoomName| #[trigger] room_seq(self@, r) == room_seq(old(self)@, r) + requests@.take(
                    k as int + 1,
                ).filter(|q: RepairRequest| q.room == r) by {
                    reveal_with_fuel(Seq::<_>::filter, 1);
                    assert(room_seq(self@, r) == if r == q.room {
                        room_seq(before, q.room) + seq![q]
                    } else {
                        room_seq(before, r)
                    });
                    if r == q.room {
                        assert(room_seq(old(self)@, r) + requests@.take(k as int).filter(|x: RepairRequest| x.room == r)
                            + seq![q] =~= room_seq(old(self)@, r) + requests@.take(k as int).filter(
                            |x: RepairRequest| x.room == r,
                        ).push(q));
                    }
                }
            }
            k += 1;
        }
        assert(requests@.take(requests@.len() as int) =~= requests@);
    }

    /// The most urgent request of `room` that meets the minimum priority:
    /// highest priority first, then lowest hits fraction (a structure
    /// without a hits maximum counts as undamaged); among equals, the last
    /// posted. `None` when the room has no such request.
    pub fn get_best_target(&self, room: RoomName, minimum_priority: Option<RepairPriority>) -> (best: Option<
        RepairRequest,
    >)
        ensures
            match best {
                None => !spec_has_requests(room_seq(self@, room), minimum_priority),
                Some(b) => exists|i: int|
                    is_last_best(room_seq(self@, room), i, minimum_priority, None) && room_seq(self@, room)[i] == b,
            },
    {
        match self.room_requests(room) {
            Some(v) => best_in(v, minimum_priority, None),
            None => None,
        }
    }

    /// As [`RepairQueue::get_best_target`], among the requests whose
    /// structure lies within `range` of `pos`.
    pub fn get_best_target_in_range(
        &self,
        room: RoomName,
        pos: Position,
        range: u32,
        minimum_priority: Option<RepairPriority>,
    ) -> (best: Option<RepairRequest>)
        ensures
            match best {
                None => forall|j: int|
                    0 <= j < room_seq(self@, room).len() ==> !eligible(
                        #[trigger] room_seq(self@, room)[j],
                        minimum_priority,
                        Some((pos, range)),
                    ),
                Some(b) => exists|i: int|
                    is_last_best(room_seq(self@, room), i, minimum_priority, Some((pos, range))) && room_seq(
                        self@,
                        room,
                    )[i] == b,
            },
    {
        match self.room_requests(room) {
            Some(v) => best_in(v, minimum_priority, Some((pos, range))),
            None => None,
        }
    }

    /// The requests of `room`, highest priority first; requests of equal
    /// priority keep the order they were posted in.
    pub fn get_room_requests(&self, room: RoomName) -> (v: Vec<RepairRequest>)
        ensures
            v@ == by_priority(room_seq(self@, room)),
    {
        let mut out: Vec<RepairRequest> = Vec::new();
        match self.room_requests(room) {
            Some(reqs) => {
                collect_at(reqs, 3, &mut out);
                collect_at(reqs, 2, &mut out);
                collect_at(reqs, 1, &mut out);
                collect_at(reqs, 0, &mut out);
            },
            None => {
                proof {
                    reveal_with_fuel(requests_at, 1);
                    assert(by_priority(Seq::<RepairRequest>::empty()) =~= Seq::<RepairRequest>::empty());
                }
            },
        }
        out
    }

    /// Whether `room` has a request that meets the minimum priority.
    pub fn has_requests(&self, room: RoomName, minimum_priority: Option<RepairPriority>) -> (r: bool)
        ensures
            r == spec_has_requests(room_seq(self@, room), minimum_priority),
    {
        match self.room_requests(room) {
            None => false,
            Some(v) => {
                let mut k: usize = 0;
                while k < v.len()
                    invariant
                        0 <= k <= v@.len(),
                        v@ == room_seq(self@, room),
                        forall|j: int| 0 <= j < k ==> !eligible(#[trigger] v@[j], minimum_priority, None),
                    decreases v@.len() - k,
                {
                    if eligible_exec(&v[k], minimum_priority, None) {
                        assert(eligible(room_seq(self@, room)[k as int], minimum_priority, None));
                        return true;
                    }
                    k += 1;
                }
                false
            },
        }
    }

    /// Drop every request (at the start of a tick).
    pub fn clear(&mut self)
        ensures
            final(self)@ == Map::<u16, Seq<RepairRequest>>::empty(),
    {
        self.rooms.clear();
        assert(self@ =~= Map::<u16, Seq<RepairRequest>>::empty());
    }
}

impl Default for RepairQueue {
    fn default() -> (q: RepairQueue)
        ensures
            q@ == Map::<u16, Seq<RepairRequest>>::empty(),
    {
        RepairQueue::new()
    }
}

/// A room with a request that meets the minimum always has a best target:
/// `has_requests` and `get_best_target` agree.
pub proof fn lemma_pending_request_has_a_best(s: Seq<RepairRequest>, minimum: Option<RepairPriority>)
    requires
        spec_has_requests(s, minimum),
    ensures
        exists|i: int| is_last_best(s, i, minimum, None),
    decreases s.len(),
{
    let last = s.len() - 1;
    let init = s.drop_last();
    if spec_has_requests(init, minimum) {
        lemma_pending_request_has_a_best(init, minimum);
        let bi = choose|i: int| is_last_best(init, i, minimum, None);
        assert(forall|j: int| 0 <= j < init.len() ==> init[j] == s[j]);
        if eligible(s[last], minimum, None) && !ranks_below(s[last], s[bi]) {
            assert forall|j: int| 0 <= j < s.len() && eligible(#[trigger] s[j], minimum, None) implies !ranks_below(
                s[last],
                s[j],
            ) by {
                if j < last {
                    assert(init[j] == s[j]);
                    lemma_not_below_trans(s[last], s[bi], s[j]);
                }
            }
            assert(is_last_best(s, last, minimum, None));
        } else {
            assert forall|j: int| 0 <= j < s.len() && eligible(#[trigger] s[j], minimum, None) implies !ranks_below(
                s[bi],
                s[j],
            ) by {
                if j < last {
                    assert(init[j] == s[j]);
                }
            }
            assert forall|j: int| bi < j < s.len() && eligible(#[trigger] s[j], minimum, None) implies ranks_below(
                s[j],
                s[bi],
            ) by {
                if j < last {
                    assert(init[j] == s[j]);
                }
            }
            assert(is_last_best(s, bi, minimum, None));
        }
    } else {
        assert forall|j: int| 0 <= j < last implies !eligible(#[trigger] s[j], minimum, None) by {
            assert(init[j] == s[j]);
        }
        assert(eligible(s[last], minimum, None));
        assert(is_last_best(s, last, minimum, None));
    }
}

/// A request just posted is pending for its room at its own priority.
pub proof fn lemma_posted_request_is_pending(m: Map<u16, Seq<RepairRequest>>, r: RepairRequest, t: Map<
    u16,
    Seq<RepairRequest>,
>)
    requires
        posted_to(m, r.room, seq![r], t),
    ensures
        spec_has_requests(room_seq(t, r.room), Some(r.priority)),
{
    let s = room_seq(t, r.room);
    assert(s == room_seq(m, r.room) + seq![r]);
    assert(s[s.len() - 1] == r);
    assert(eligible(s[s.len() - 1], Some(r.priority), None));
}

} // verus!
