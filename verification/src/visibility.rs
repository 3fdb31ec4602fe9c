//! The visibility queue: rooms that producers want seen, merged per room,
//! and the scout give-up memory (rooms a scout repeatedly failed to reach,
//! with an exponential retry backoff; observers are not suppressed, only
//! scout servicing). Also the observer assignment and rotation.
//!
//! A request's priority is held as an order key: a larger key is a more
//! urgent request.
use vstd::prelude::*;
use crate::geometry::{RoomName, room_distance, spec_room_distance};
use crate::scoutassignment::{room_before, room_name_lt};

verus! {

/// Default TTL for visibility requests (ticks); doubles as the default
/// freshness target.
pub const DEFAULT_VISIBILITY_TTL: u32 = 100;

/// Base backoff (ticks) after the first scout give-up; doubles per repeat.
pub const UNREACHABLE_BACKOFF_BASE: u32 = 2000;

/// Cap on the scout give-up backoff.
pub const UNREACHABLE_BACKOFF_MAX: u32 = 20000;

/// A room a scout repeatedly failed to reach.
#[derive(Debug, Clone, Copy)]
pub struct UnreachableRoom {
    pub room_name: RoomName,
    /// Earliest tick a scout may be dispatched here again.
    pub retry_after: u32,
    /// Consecutive scout give-ups (drives the backoff).
    pub attempts: u32,
}

/// The room `E0N0`, which default records name.
pub open spec fn default_room() -> RoomName {
    RoomName { packed: 0x807f }
}

impl Default for UnreachableRoom {
    /// A record for `E0N0` with no give-ups, free to retry at once.
    fn default() -> (r: UnreachableRoom)
        ensures
            r.room_name == default_room(),
            r.retry_after == 0,
            r.attempts == 0,
    {
        UnreachableRoom { room_name: RoomName { packed: 0x807f }, retry_after: 0, attempts: 0 }
    }
}

/// The backoff after the `attempts`-th consecutive give-up:
/// `BASE · 2^(attempts - 1)`, capped at `MAX`.
pub open spec fn unreachable_backoff(attempts: u32) -> u32 {
    let shift: int = if attempts >= 1 { attempts - 1 } else { 0 };
    if shift == 0 {
        2000
    } else if shift == 1 {
        4000
    } else if shift == 2 {
        8000
    } else if shift == 3 {
        16000
    } else {
        UNREACHABLE_BACKOFF_MAX
    }
}

/// `now + backoff`, saturating.
pub open spec fn retry_tick(now: u32, backoff: u32) -> u32 {
    if now + backoff <= u32::MAX { (now + backoff) as u32 } else { u32::MAX }
}

/// The first index naming `room`, if any.
pub open spec fn first_index_of(s: Seq<UnreachableRoom>, room: RoomName) -> int
    decreases s.len(),
{
    if s.len() == 0 {
        -1
    } else {
        let k = first_index_of(s.drop_last(), room);
        if k >= 0 {
            k
        } else if s.last().room_name == room {
            s.len() - 1
        } else {
            -1
        }
    }
}

proof fn lemma_first_index_of(s: Seq<UnreachableRoom>, room: RoomName)
    ensures
        -1 <= first_index_of(s, room) < s.len(),
        first_index_of(s, room) >= 0 ==> s[first_index_of(s, room)].room_name == room,
        forall|j: int|
            0 <= j < s.len() && (first_index_of(s, room) < 0 || j < first_index_of(s, room)) ==> (
            #[trigger] s[j]).room_name != room,
    decreases s.len(),
{
    if s.len() > 0 {
        lemma_first_index_of(s.drop_last(), room);
        assert forall|j: int| 0 <= j < s.len() - 1 implies s.drop_last()[j] == #[trigger] s[j] by {}
    }
}

/// The attempt count after one more give-up (saturating).
pub open spec fn next_attempts(attempts: u32) -> u32 {
    if attempts < u32::MAX { (attempts + 1) as u32 } else { u32::MAX }
}

/// The give-up records after a give-up for `room` at `now`: the first record
/// of the room counts one more attempt and backs off exponentially from
/// `now`; a room without a record gets one with the base backoff.
pub open spec fn spec_mark_unreachable(s: Seq<UnreachableRoom>, room: RoomName, now: u32) -> Seq<UnreachableRoom> {
    let k = first_index_of(s, room);
    if k >= 0 {
        let attempts = next_attempts(s[k].attempts);
        s.update(
            k,
            UnreachableRoom {
                room_name: s[k].room_name,
                retry_after: retry_tick(now, unreachable_backoff(attempts)),
                attempts,
            },
        )
    } else {
        s.push(UnreachableRoom { room_name: room, retry_after: retry_tick(now, UNREACHABLE_BACKOFF_BASE), attempts: 1 })
    }
}

/// Requests that observers may serve.
pub const VISIBILITY_OBSERVE: u8 = 1;

/// Requests that scouts may serve.
pub const VISIBILITY_SCOUT: u8 = 2;

/// Requests that either may serve.
pub const VISIBILITY_ALL: u8 = 3;

/// Display label of a set of request kinds: `O+S`, `O`, `S` or `-`.
pub fn flags_label(flags: u8) -> (r: &'static str)
    ensures
        r@ == if flags & VISIBILITY_OBSERVE != 0 && flags & VISIBILITY_SCOUT != 0 {
            "O+S"@
        } else if flags & VISIBILITY_OBSERVE != 0 {
            "O"@
        } else if flags & VISIBILITY_SCOUT != 0 {
            "S"@
        } else {
            "-"@
        },
{
    let observe = flags & VISIBILITY_OBSERVE != 0;
    let scout = flags & VISIBILITY_SCOUT != 0;
    if observe && scout {
        "O+S"
    } else if observe {
        "O"
    } else if scout {
        "S"
    } else {
        "-"
    }
}

/// One room's merged visibility request.
#[derive(Debug, Clone, Copy, PartialEq, Eq, Structural)]
pub struct VisibilityEntry {
    pub room_name: RoomName,
    /// Order key of the priority (larger is more urgent).
    pub priority_key: u32,
    /// Which of observers and scouts may serve it.
    pub allowed_types: u8,
    /// Tick at which the entry expires.
    pub expires_at: u32,
    /// Only scouts already alive serve it; it never asks for a new scout.
    pub opportunistic: bool,
    /// Intel at or below this age (ticks) counts as serviced.
    pub want_fresh_within: u32,
}

impl Default for VisibilityEntry {
    /// An expired, lowest-priority entry for `E0N0` that no kind may
    /// serve, with the default freshness target.
    fn default() -> (r: VisibilityEntry)
        ensures
            r == (VisibilityEntry {
                room_name: default_room(),
                priority_key: 0,
                allowed_types: 0,
                expires_at: 0,
                opportunistic: false,
                want_fresh_within: DEFAULT_VISIBILITY_TTL,
            }),
    {
        VisibilityEntry {
            room_name: RoomName { packed: 0x807f },
            priority_key: 0,
            allowed_types: 0,
            expires_at: 0,
            opportunistic: false,
            want_fresh_within: DEFAULT_VISIBILITY_TTL,
        }
    }
}

/// A producer's visibility request.
#[derive(Debug, Clone, Copy, PartialEq, Eq, Structural)]
pub struct VisibilityRequest {
    pub room_name: RoomName,
    pub priority_key: u32,
    pub allowed_types: u8,
    pub opportunistic: bool,
    pub want_fresh_within: u32,
}

impl VisibilityRequest {
    /// A request with the default freshness target (one TTL).
    pub fn new(room_name: RoomName, priority_key: u32, allowed_types: u8) -> (r: VisibilityRequest)
        ensures
            r == (VisibilityRequest {
                room_name,
                priority_key,
                allowed_types,
                opportunistic: false,
                want_fresh_within: DEFAULT_VISIBILITY_TTL,
            }),
    {
        VisibilityRequest {
            room_name,
            priority_key,
            allowed_types,
            opportunistic: false,
            want_fresh_within: DEFAULT_VISIBILITY_TTL,
        }
    }

    /// A request that only scouts already alive serve.
    pub fn new_opportunistic(room_name: RoomName, priority_key: u32, allowed_types: u8) -> (r: VisibilityRequest)
        ensures
            r == (VisibilityRequest {
                room_name,
                priority_key,
                allowed_types,
                opportunistic: true,
                want_fresh_within: DEFAULT_VISIBILITY_TTL,
            }),
    {
        VisibilityRequest {
            room_name,
            priority_key,
            allowed_types,
            opportunistic: true,
            want_fresh_within: DEFAULT_VISIBILITY_TTL,
        }
    }

    /// Declare the freshness target: intel at or below `ticks` old counts as
    /// serviced (`0` asks for a visit this very tick).
    pub fn want_fresh_within(self, ticks: u32) -> (r: VisibilityRequest)
        ensures
            r == (VisibilityRequest { want_fresh_within: ticks, ..self }),
    {
        VisibilityRequest { want_fresh_within: ticks, ..self }
    }
}

/// `c` is the letter `lower` in either case.
pub open spec fn letter_is(c: char, lower: char, upper: char) -> bool {
    c == lower || c == upper
}

/// A flag whose name starts with "scout", in any case, asks for a scout.
pub open spec fn spec_is_scout_flag(name: Seq<char>) -> bool {
    &&& name.len() >= 5
    &&& letter_is(name[0], 's', 'S')
    &&& letter_is(name[1], 'c', 'C')
    &&& letter_is(name[2], 'o', 'O')
    &&& letter_is(name[3], 'u', 'U')
    &&& letter_is(name[4], 't', 'T')
}

/// Whether a flag's name asks for a scout (see [`spec_is_scout_flag`]).
pub fn is_scout_flag(name: &str) -> (r: bool)
    ensures
        r == spec_is_scout_flag(name@),
{
    if name.unicode_len() < 5 {
        return false;
    }
    let c0 = name.get_char(0);
    let c1 = name.get_char(1);
    let c2 = name.get_char(2);
    let c3 = name.get_char(3);
    let c4 = name.get_char(4);
    (c0 == 's' || c0 == 'S') && (c1 == 'c' || c1 == 'C') && (c2 == 'o' || c2 == 'O') && (c3 == 'u' || c3 == 'U') && (
    c4 == 't' || c4 == 'T')
}

/// The request a scout flag makes for its room: both kinds may serve it,
/// and only a sighting this very tick satisfies it.
pub fn scout_flag_request(room_name: RoomName, priority_key: u32) -> (r: VisibilityRequest)
    ensures
        r == (VisibilityRequest {
            room_name,
            priority_key,
            allowed_types: VISIBILITY_ALL,
            opportunistic: false,
            want_fresh_within: 0,
        }),
{
    VisibilityRequest::new(room_name, priority_key, VISIBILITY_ALL).want_fresh_within(0)
}

/// The entry a new request creates at `now`.
pub open spec fn new_entry(req: VisibilityRequest, now: u32) -> VisibilityEntry {
    VisibilityEntry {
        room_name: req.room_name,
        priority_key: req.priority_key,
        allowed_types: req.allowed_types,
        expires_at: (now + DEFAULT_VISIBILITY_TTL) as u32,
        opportunistic: req.opportunistic,
        want_fresh_within: req.want_fresh_within,
    }
}

pub open spec fn max_u32(a: u32, b: u32) -> u32 {
    if a >= b { a } else { b }
}

pub open spec fn min_u32(a: u32, b: u32) -> u32 {
    if a <= b { a } else { b }
}

/// An existing entry merged with a request at `now`: the most urgent
/// priority, the union of kinds, the later expiry, the strictest freshness;
/// a non-opportunistic request makes the entry non-opportunistic.
pub open spec fn merge_entry(e: VisibilityEntry, req: VisibilityRequest, now: u32) -> VisibilityEntry {
    VisibilityEntry {
        room_name: e.room_name,
        priority_key: max_u32(e.priority_key, req.priority_key),
        allowed_types: e.allowed_types | req.allowed_types,
        expires_at: max_u32(e.expires_at, (now + DEFAULT_VISIBILITY_TTL) as u32),
        opportunistic: e.opportunistic && req.opportunistic,
        want_fresh_within: min_u32(e.want_fresh_within, req.want_fresh_within),
    }
}

/// `t` is the queue `s` after `req` at `now`: the first entry of the room is
/// merged with it, or, when the room has none, a new entry is appended.
pub open spec fn spec_requested(s: Seq<VisibilityEntry>, req: VisibilityRequest, now: u32, t: Seq<VisibilityEntry>) -> bool {
    ||| exists|k: int|
        #![trigger s[k]]
        0 <= k < s.len() && s[k].room_name == req.room_name && (forall|j: int|
            0 <= j < k ==> (#[trigger] s[j]).room_name != req.room_name) && t == s.update(
            k,
            merge_entry(s[k], req, now),
        )
    ||| (forall|j: int| 0 <= j < s.len() ==> (#[trigger] s[j]).room_name != req.room_name) && t == s.push(
        new_entry(req, now),
    )
}

/// Some entry is for `room`.
pub open spec fn spec_has_entry(s: Seq<VisibilityEntry>, room: RoomName) -> bool {
    exists|j: int| 0 <= j < s.len() && (#[trigger] s[j]).room_name == room
}

/// The visibility queue: the merged requests and the scout give-up memory.
pub struct VisibilityQueue {
    pub entries: Vec<VisibilityEntry>,
    pub unreachable: Vec<UnreachableRoom>,
}

impl VisibilityQueue {
    pub fn new() -> (q: VisibilityQueue)
        ensures
            q.entries@.len() == 0,
            q.unreachable@.len() == 0,
    {
        VisibilityQueue { entries: Vec::new(), unreachable: Vec::new() }
    }

    /// Upsert a request at `now`: an entry of the room takes the most urgent
    /// priority, both kinds, the later expiry and the strictest freshness,
    /// and a non-opportunistic request clears its opportunistic flag; a room
    /// without an entry gets one that expires a TTL from `now`.
    pub fn request(&mut self, request: VisibilityRequest, now: u32)
        requires
            now + DEFAULT_VISIBILITY_TTL <= u32::MAX,
        ensures
            spec_requested(old(self).entries@, request, now, final(self).entries@),
            final(self).unreachable@ == old(self).unreachable@,
    {
        let ghost s = self.entries@;
        let expires_at = now + DEFAULT_VISIBILITY_TTL;
        let mut i: usize = 0;
        while i < self.entries.len()
            invariant
                s == self.entries@,
                s == old(self).entries@,
                self.unreachable@ == old(self).unreachable@,
                expires_at == now + DEFAULT_VISIBILITY_TTL,
                0 <= i <= s.len(),
                forall|j: int| 0 <= j < i ==> (#[trigger] s[j]).room_name != request.room_name,
            decreases s.len() - i,
        {
            let e = self.entries[i];
            if e.room_name == request.room_name {
                let merged = VisibilityEntry {
                    room_name: e.room_name,
                    priority_key: if e.priority_key >= request.priority_key {
                        e.priority_key
                    } else {
                        request.priority_key
                    },
                    allowed_types: e.allowed_types | request.allowed_types,
                    expires_at: if e.expires_at >= expires_at {
                        e.expires_at
                    } else {
                        expires_at
                    },
                    opportunistic: e.opportunistic && request.opportunistic,
                    want_fresh_within: if e.want_fresh_within <= request.want_fresh_within {
                        e.want_fresh_within
                    } else {
                        request.want_fresh_within
                    },
                };
                assert(merged == merge_entry(s[i as int], request, now));
                self.entries.set(i, merged);
                assert(self.entries@ == s.update(i as int, merge_entry(s[i as int], request, now)));
                return;
            }
            i += 1;
        }
        self.entries.push(
            VisibilityEntry {
                room_name: request.room_name,
                priority_key: request.priority_key,
                allowed_types: request.allowed_types,
                expires_at,
                opportunistic: request.opportunistic,
                want_fresh_within: request.want_fresh_within,
            },
        );
    }

    /// Drop the entries that have expired by `current_tick`.
    pub fn expire(&mut self, current_tick: u32)
        ensures
            final(self).entries@ == old(self).entries@.filter(
                |e: VisibilityEntry| e.expires_at > current_tick,
            ),
            final(self).unreachable@ == old(self).unreachable@,
    {
        let ghost s = self.entries@;
        let ghost pred = |e: VisibilityEntry| e.expires_at > current_tick;
        let mut kept: Vec<VisibilityEntry> = Vec::new();
        let mut i: usize = 0;
        while i < self.entries.len()
            invariant
                s == self.entries@,
                0 <= i <= s.len(),
                pred == (|e: VisibilityEntry| e.expires_at > current_tick),
                kept@ == s.take(i as int).filter(pred),
            decreases s.len() - i,
        {
            proof {
                reveal_with_fuel(Seq::<_>::filter, 1);
                assert(s.take(i as int + 1).drop_last() =~= s.take(i as int));
            }
            let e = self.entries[i];
            if e.expires_at > current_tick {
                kept.push(e);
            }
            i += 1;
        }
        proof {
            assert(s.take(s.len() as int) =~= s);
        }
        self.entries = kept;
    }

    /// Whether some entry is for `room_name`.
    pub fn has_entry(&self, room_name: RoomName) -> (r: bool)
        ensures
            r == spec_has_entry(self.entries@, room_name),
    {
        let mut i: usize = 0;
        while i < self.entries.len()
            invariant
                0 <= i <= self.entries@.len(),
                forall|j: int| 0 <= j < i ==> (#[trigger] self.entries@[j]).room_name != room_name,
            decreases self.entries@.len() - i,
        {
            if self.entries[i].room_name == room_name {
                return true;
            }
            i += 1;
        }
        false
    }

    /// Record a scout give-up for `room_name` at `now`: the first record of
    /// the room counts one more attempt and backs off exponentially from
    /// `now`; a room without a record gets one with the base backoff.
    pub fn mark_unreachable(&mut self, room_name: RoomName, now: u32)
        ensures
            final(self).unreachable@ == spec_mark_unreachable(old(self).unreachable@, room_name, now),
            final(self).entries@ == old(self).entries@,
    {
        let ghost s = self.unreachable@;
        proof {
            lemma_first_index_of(s, room_name);
        }
        let mut i: usize = 0;
        let mut found = false;
        while i < self.unreachable.len()
            invariant_except_break
                !found,
                0 <= i <= s.len(),
                forall|j: int| 0 <= j < i ==> (#[trigger] s[j]).room_name != room_name,
            invariant
                s == self.unreachable@,
                -1 <= first_index_of(s, room_name) < s.len(),
                first_index_of(s, room_name) >= 0 ==> s[first_index_of(s, room_name)].room_name
                    == room_name,
                forall|j: int|
                    0 <= j < s.len() && (first_index_of(s, room_name) < 0 || j < first_index_of(
                        s,
                        room_name,
                    )) ==> (#[trigger] s[j]).room_name != room_name,
            ensures
                found ==> i < s.len() && first_index_of(s, room_name) == i as int,
                !found ==> first_index_of(s, room_name) < 0,
            decreases s.len() - i,
        {
            if self.unreachable[i].room_name == room_name {
                found = true;
                proof {
                    assert(s[i as int].room_name == room_name);
                    let k = first_index_of(s, room_name);
                    if k >= 0 && k != i as int {
                        if k < i as int {
                            assert(s[k].room_name != room_name);
                        }
                    }
                    assert(k == i as int);
                }
                break;
            }
            i += 1;
        }
        if found {
            let existing = self.unreachable[i];
            let attempts = existing.attempts.saturating_add(1);
            let shift = if attempts >= 1 { attempts - 1 } else { 0 };
            let backoff: u32 = if shift == 0 {
                2000
            } else if shift == 1 {
                4000
            } else if shift == 2 {
                8000
            } else if shift == 3 {
                16000
            } else {
                UNREACHABLE_BACKOFF_MAX
            };
            let updated = UnreachableRoom {
                room_name: existing.room_name,
                retry_after: now.saturating_add(backoff),
                attempts,
            };
            self.unreachable.set(i, updated);
            proof {
                assert(attempts == next_attempts(s[i as int].attempts));
                assert(self.unreachable@ =~= spec_mark_unreachable(s, room_name, now));
            }
        } else {
            self.unreachable.push(
                UnreachableRoom {
                    room_name,
                    retry_after: now.saturating_add(UNREACHABLE_BACKOFF_BASE),
                    attempts: 1,
                },
            );
        }
    }

    /// `room_name` is in scout give-up backoff at `now`.
    pub fn is_unreachable_now(&self, room_name: RoomName, now: u32) -> (r: bool)
        ensures
            r == exists|j: int|
                0 <= j < self.unreachable@.len() && (#[trigger] self.unreachable@[j]).room_name
                    == room_name && self.unreachable@[j].retry_after > now,
    {
        let mut i: usize = 0;
        while i < self.unreachable.len()
            invariant
                0 <= i <= self.unreachable@.len(),
                forall|j: int|
                    0 <= j < i ==> !((#[trigger] self.unreachable@[j]).room_name == room_name
                        && self.unreachable@[j].retry_after > now),
            decreases self.unreachable@.len() - i,
        {
            let u = self.unreachable[i];
            if u.room_name == room_name && u.retry_after > now {
                return true;
            }
            i += 1;
        }
        false
    }

    /// Forget any give-up record for `room_name` (fresh visibility arrived).
    pub fn clear_unreachable(&mut self, room_name: RoomName)
        ensures
            final(self).unreachable@ == old(self).unreachable@.filter(
                |u: UnreachableRoom| u.room_name != room_name,
            ),
            final(self).entries@ == old(self).entries@,
    {
        let ghost s = self.unreachable@;
        let ghost pred = |u: UnreachableRoom| u.room_name != room_name;
        let mut kept: Vec<UnreachableRoom> = Vec::new();
        let mut i: usize = 0;
        while i < self.unreachable.len()
            invariant
                s == self.unreachable@,
                0 <= i <= s.len(),
                pred == (|u: UnreachableRoom| u.room_name != room_name),
                kept@ == s.take(i as int).filter(pred),
            decreases s.len() - i,
        {
            proof {
                reveal_with_fuel(Seq::<_>::filter, 1);
                assert(s.take(i as int + 1).drop_last() =~= s.take(i as int));
            }
            let u = self.unreachable[i];
            if u.room_name != room_name {
                kept.push(u);
            }
            i += 1;
        }
        proof {
            assert(s.take(s.len() as int) =~= s);
        }
        self.unreachable = kept;
    }
}

/// After a request, the queue holds an entry for the room that is at
/// least as urgent as the request, allows every kind it asked for, is at
/// least as strict about freshness, lives at least a TTL from `now`, and is
/// non-opportunistic when the request was: a lax re-request never loosens
/// an entry.
pub proof fn lemma_request_takes_effect(s: Seq<VisibilityEntry>, req: VisibilityRequest, now: u32, t: Seq<VisibilityEntry>)
    requires
        now + DEFAULT_VISIBILITY_TTL <= u32::MAX,
        spec_requested(s, req, now, t),
    ensures
        exists|k: int|
            #![trigger t[k]]
            0 <= k < t.len() && t[k].room_name == req.room_name && t[k].priority_key >= req.priority_key
                && t[k].allowed_types & req.allowed_types == req.allowed_types && t[k].want_fresh_within
                <= req.want_fresh_within && t[k].expires_at >= now + DEFAULT_VISIBILITY_TTL && (
            !req.opportunistic ==> !t[k].opportunistic),
{
    let a = req.allowed_types;
    if exists|k: int|
        #![trigger s[k]]
        0 <= k < s.len() && s[k].room_name == req.room_name && (forall|j: int|
            0 <= j < k ==> (#[trigger] s[j]).room_name != req.room_name) && t == s.update(
            k,
            merge_entry(s[k], req, now),
        ) {
        let k = choose|k: int|
            #![trigger s[k]]
            0 <= k < s.len() && s[k].room_name == req.room_name && (forall|j: int|
                0 <= j < k ==> (#[trigger] s[j]).room_name != req.room_name) && t == s.update(
                k,
                merge_entry(s[k], req, now),
            );
        let e = s[k].allowed_types;
        assert((e | a) & a == a) by (bit_vector);
        assert(t[k] == merge_entry(s[k], req, now));
    } else {
        let k = s.len() as int;
        assert(a & a == a) by (bit_vector);
        assert(t[k] == new_entry(req, now));
    }
}

/// A requested room stays queued for a TTL: expiring at any tick before
/// `now + TTL` keeps an entry for it.
pub proof fn lemma_request_outlives_its_ttl(
    s: Seq<VisibilityEntry>,
    req: VisibilityRequest,
    now: u32,
    t: Seq<VisibilityEntry>,
    tick: u32,
)
    requires
        now + DEFAULT_VISIBILITY_TTL <= u32::MAX,
        spec_requested(s, req, now, t),
        tick < now + DEFAULT_VISIBILITY_TTL,
    ensures
        spec_has_entry(t.filter(|e: VisibilityEntry| e.expires_at > tick), req.room_name),
{
    broadcast use Seq::lemma_filter_contains;

    lemma_request_takes_effect(s, req, now, t);
    let pred = |e: VisibilityEntry| e.expires_at > tick;
    let k = choose|k: int|
        #![trigger t[k]]
        0 <= k < t.len() && t[k].room_name == req.room_name && t[k].priority_key >= req.priority_key
            && t[k].allowed_types & req.allowed_types == req.allowed_types && t[k].want_fresh_within
            <= req.want_fresh_within && t[k].expires_at >= now + DEFAULT_VISIBILITY_TTL && (
        !req.opportunistic ==> !t[k].opportunistic);
    assert(pred(t[k]));
    assert(t.filter(pred).contains(t[k]));
    let f = t.filter(pred);
    let j = choose|j: int| 0 <= j < f.len() && f[j] == t[k];
    assert(f[j].room_name == req.room_name);
}

/// Entry `i` is observed before entry `j`: higher priority first, then the
/// one observed longer ago, then reading order of the rooms, then queue
/// order.
pub open spec fn observe_before(e: Seq<VisibilityEntry>, last: Seq<u32>, i: int, j: int) -> bool {
    let a = e[i];
    let b = e[j];
    ||| a.priority_key > b.priority_key
    ||| a.priority_key == b.priority_key && last[i] < last[j]
    ||| a.priority_key == b.priority_key && last[i] == last[j] && room_before(a.room_name, b.room_name)
    ||| a.priority_key == b.priority_key && last[i] == last[j] && !room_before(a.room_name, b.room_name)
        && !room_before(b.room_name, a.room_name) && i < j
}

/// Entry `i` asks for an observer and its intel is older than it wants.
pub open spec fn wants_observer(e: Seq<VisibilityEntry>, intel_age: Seq<u32>, i: int) -> bool {
    e[i].allowed_types & VISIBILITY_OBSERVE != 0 && intel_age[i] > e[i].want_fresh_within
}

proof fn lemma_observe_before_order(e: Seq<VisibilityEntry>, last: Seq<u32>, i: int, j: int, k: int)
    ensures
        i != j ==> observe_before(e, last, i, j) || observe_before(e, last, j, i),
        !observe_before(e, last, i, i),
        observe_before(e, last, i, j) && observe_before(e, last, j, k) ==> observe_before(e, last, i, k),
        observe_before(e, last, i, j) ==> !observe_before(e, last, j, i),
{
}

/// The entries an observer should serve, in the order they are served:
/// entries that allow observers and whose intel (`intel_age`, by entry) is
/// older than they want, highest priority first, then least recently
/// observed (`last_observed`, by entry), then reading order of the rooms,
/// then queue order. Returns their indices.
pub fn observe_order(entries: &[VisibilityEntry], intel_age: &[u32], last_observed: &[u32]) -> (out: Vec<usize>)
    requires
        intel_age@.len() == entries@.len(),
        last_observed@.len() == entries@.len(),
    ensures
        out@.no_duplicates(),
        forall|i: int| 0 <= i < entries@.len() ==> (out@.contains(i as usize) <==> wants_observer(entries@, intel_age@, i)),
        forall|k: int| 0 <= k < out@.len() ==> #[trigger] out@[k] < entries@.len(),
        forall|a: int, b: int|
            0 <= a < b < out@.len() ==> observe_before(entries@, last_observed@, out@[a] as int, out@[b] as int),
{
    let ghost e = entries@;
    let ghost last = last_observed@;
    let mut out: Vec<usize> = Vec::new();
    let mut i: usize = 0;
    while i < entries.len()
        invariant
            e == entries@,
            last == last_observed@,
            intel_age@.len() == e.len(),
            last.len() == e.len(),
            0 <= i <= e.len(),
            out@.no_duplicates(),
            forall|k: int| 0 <= k < out@.len() ==> #[trigger] out@[k] < i,
            forall|x: int| 0 <= x < i ==> (out@.contains(x as usize) <==> wants_observer(e, intel_age@, x)),
            forall|a: int, b: int| 0 <= a < b < out@.len() ==> observe_before(e, last, out@[a] as int, out@[b] as int),
        decreases e.len() - i,
    {
        let en = entries[i];
        if en.allowed_types & VISIBILITY_OBSERVE != 0 && intel_age[i] > en.want_fresh_within {
            let ghost before = out@;
            let mut p: usize = 0;
            while p < out.len() && !self::observed_first(entries, last_observed, i, out[p])
                invariant
                    e == entries@,
                    last == last_observed@,
                    last.len() == e.len(),
                    i < e.len(),
                    0 <= p <= out@.len(),
                    out@ == before,
                    forall|k: int| 0 <= k < out@.len() ==> #[trigger] out@[k] < i,
                    forall|a: int| 0 <= a < p ==> !observe_before(e, last, i as int, #[trigger] out@[a] as int),
                decreases out@.len() - p,
            {
                p += 1;
            }
            proof {
                assert forall|a: int| 0 <= a < p implies observe_before(e, last, #[trigger] before[a] as int, i as int) by {
                    lemma_observe_before_order(e, last, before[a] as int, i as int, 0);
                }
                assert forall|a: int| p <= a < before.len() implies observe_before(e, last, i as int, #[trigger] before[a] as int) by {
                    if a > p {
                        lemma_observe_before_order(e, last, i as int, before[p as int] as int, before[a] as int);
                    }
                }
            }
            out.insert(p, i);
            proof {
                assert forall|a: int, b: int| 0 <= a < b < out@.len() implies observe_before(e, last, out@[a] as int, out@[b] as int) by {
                    if a < p && b < p {
                        assert(out@[a] == before[a] && out@[b] == before[b]);
                    } else if a < p && b == p {
                        assert(out@[a] == before[a]);
                    } else if a < p {
                        assert(out@[a] == before[a] && out@[b] == before[b - 1]);
                    } else if a == p {
                        assert(out@[b] == before[b - 1]);
                    } else {
                        assert(out@[a] == before[a - 1] && out@[b] == before[b - 1]);
                    }
                }
                assert forall|k: int| 0 <= k < out@.len() implies #[trigger] out@[k] < i + 1 by {
                    if k < p {
                        assert(out@[k] == before[k]);
                    } else if k > p {
                        assert(out@[k] == before[k - 1]);
                    }
                }
                assert forall|x: int| 0 <= x < i + 1 implies (out@.contains(x as usize) <==> wants_observer(e, intel_age@, x)) by {
                    if out@.contains(x as usize) {
                        let a = choose|a: int| 0 <= a < out@.len() && out@[a] == x as usize;
                        if a < p {
                            assert(before[a] == x as usize);
                            assert(before.contains(x as usize));
                        } else if a > p {
                            assert(before[a - 1] == x as usize);
                            assert(before.contains(x as usize));
                        }
                    }
                    if x < i && before.contains(x as usize) {
                        let a = choose|a: int| 0 <= a < before.len() && before[a] == x as usize;
                        if a < p {
                            assert(out@[a] == x as usize);
                        } else {
                            assert(out@[a + 1] == x as usize);
                        }
                    }
                    if x == i {
                        assert(out@[p as int] == i);
                    }
                }
                assert forall|a: int, b: int| 0 <= a < out@.len() && 0 <= b < out@.len() && a != b implies out@[a] != out@[b] by {
                    if a != p && b != p {
                        let a0 = if a < p { a } else { a - 1 };
                        let b0 = if b < p { b } else { b - 1 };
                        assert(out@[a] == before[a0] && out@[b] == before[b0]);
                    } else if a == p {
                        let b0 = if b < p { b } else { b - 1 };
                        assert(out@[b] == before[b0]);
                    } else {
                        let a0 = if a < p { a } else { a - 1 };
                        assert(out@[a] == before[a0]);
                    }
                }
            }
        } else {
            proof {
                assert(!out@.contains(i));
            }
        }
        i += 1;
    }
    out
}

/// Whether entry `i` is observed before entry `j`.
fn observed_first(entries: &[VisibilityEntry], last_observed: &[u32], i: usize, j: usize) -> (r: bool)
    requires
        i < entries@.len(),
        j < entries@.len(),
        last_observed@.len() == entries@.len(),
    ensures
        r == observe_before(entries@, last_observed@, i as int, j as int),
{
    let a = entries[i];
    let b = entries[j];
    if a.priority_key != b.priority_key {
        return a.priority_key > b.priority_key;
    }
    if last_observed[i] != last_observed[j] {
        return last_observed[i] < last_observed[j];
    }
    if room_name_lt(a.room_name, b.room_name) {
        return true;
    }
    if room_name_lt(b.room_name, a.room_name) {
        return false;
    }
    i < j
}

/// The backoff never exceeds its cap, and each further give-up doubles it
/// until the cap.
pub proof fn lemma_backoff_doubles_to_cap(attempts: u32)
    requires
        1 <= attempts < u32::MAX,
    ensures
        unreachable_backoff(attempts) <= UNREACHABLE_BACKOFF_MAX,
        unreachable_backoff((attempts + 1) as u32) == if 2 * unreachable_backoff(attempts)
            <= UNREACHABLE_BACKOFF_MAX {
            2 * unreachable_backoff(attempts)
        } else {
            UNREACHABLE_BACKOFF_MAX as int
        },
{
}


proof fn lemma_filter_drops_updated(s: Seq<UnreachableRoom>, k: int, x: UnreachableRoom, pred: spec_fn(UnreachableRoom) -> bool)
    requires
        0 <= k < s.len(),
        !pred(s[k]),
        !pred(x),
    ensures
        s.update(k, x).filter(pred) == s.filter(pred),
    decreases s.len(),
{
    reveal_with_fuel(Seq::<_>::filter, 1);
    let t = s.update(k, x);
    if k == s.len() - 1 {
        assert(t.drop_last() =~= s.drop_last());
    } else {
        assert(t.drop_last() =~= s.drop_last().update(k, x));
        lemma_filter_drops_updated(s.drop_last(), k, x, pred);
    }
}

/// A give-up record touches only its own room: any view of the records
/// that leaves that room out is the same before and after the mark.
pub proof fn lemma_mark_only_touches_its_room(
    s: Seq<UnreachableRoom>,
    room: RoomName,
    now: u32,
    pred: spec_fn(UnreachableRoom) -> bool,
)
    requires
        forall|u: UnreachableRoom| u.room_name == room ==> !#[trigger] pred(u),
    ensures
        spec_mark_unreachable(s, room, now).filter(pred) == s.filter(pred),
{
    lemma_first_index_of(s, room);
    let k = first_index_of(s, room);
    if k >= 0 {
        let attempts = next_attempts(s[k].attempts);
        let x = UnreachableRoom {
            room_name: s[k].room_name,
            retry_after: retry_tick(now, unreachable_backoff(attempts)),
            attempts,
        };
        lemma_filter_drops_updated(s, k, x, pred);
    } else {
        let x = UnreachableRoom { room_name: room, retry_after: retry_tick(now, UNREACHABLE_BACKOFF_BASE), attempts: 1 };
        reveal_with_fuel(Seq::<_>::filter, 1);
        assert(s.push(x).drop_last() =~= s);
    }
}

/// The give-up records left after clearing `room`.
pub open spec fn cleared(s: Seq<UnreachableRoom>, room: RoomName) -> Seq<UnreachableRoom> {
    s.filter(|u: UnreachableRoom| u.room_name != room)
}

/// Clearing a room lifts its scout suppression at every tick: no record of
/// the room is left (the records of other rooms stay, in order, by
/// [`VisibilityQueue::clear_unreachable`]'s contract).
pub proof fn lemma_clear_lifts_suppression(s: Seq<UnreachableRoom>, room: RoomName, now: u32)
    ensures
        forall|j: int| 0 <= j < cleared(s, room).len() ==> (#[trigger] cleared(s, room)[j]).room_name != room,
        !(exists|j: int|
            0 <= j < cleared(s, room).len() && (#[trigger] cleared(s, room)[j]).room_name == room
                && cleared(s, room)[j].retry_after > now),
{
    broadcast use vstd::seq_lib::group_filter_ensures;

    let pred = |u: UnreachableRoom| u.room_name != room;
    let f = s.filter(pred);
    assert forall|j: int| 0 <= j < f.len() implies (#[trigger] f[j]).room_name != room by {
        assert(pred(f[j]));
    }
}

pub proof fn lemma_clear_undoes_mark(s: Seq<UnreachableRoom>, room: RoomName, other: RoomName, now: u32)
    requires
        other != room,
    ensures
        spec_mark_unreachable(s, room, now).filter(|u: UnreachableRoom| u.room_name != room) == s.filter(
            |u: UnreachableRoom| u.room_name != room,
        ),
        spec_mark_unreachable(s, room, now).filter(|u: UnreachableRoom| u.room_name == other) == s.filter(
            |u: UnreachableRoom| u.room_name == other,
        ),
{
    lemma_mark_only_touches_its_room(s, room, now, |u: UnreachableRoom| u.room_name != room);
    lemma_mark_only_touches_its_room(s, room, now, |u: UnreachableRoom| u.room_name == other);
}

/// Room range of an observer.
pub const OBSERVER_RANGE: u32 = 10;

/// Observers of home `k` handed out to the first `i` targets.
pub open spec fn uses_before(picks: Seq<Option<usize>>, k: int, i: int) -> int
    decreases i,
{
    if i <= 0 {
        0
    } else {
        uses_before(picks, k, i - 1) + if picks[i - 1] == Some(k as usize) {
            1int
        } else {
            0int
        }
    }
}

/// Home `k` (a `(room, observers)` pair) still has an observer when the
/// `i`-th target is served, and the target is within its range.
pub open spec fn home_can_observe(
    homes: Seq<(RoomName, u32)>,
    picks: Seq<Option<usize>>,
    i: int,
    target: RoomName,
    k: int,
) -> bool {
    &&& 0 <= k < homes.len()
    &&& homes[k].1 - uses_before(picks, k, i) > 0
    &&& spec_room_distance(target, homes[k].0) <= OBSERVER_RANGE
}

/// Home `k` is the first of the nearest homes that can observe `target`.
pub open spec fn nearest_observer_home(
    homes: Seq<(RoomName, u32)>,
    picks: Seq<Option<usize>>,
    i: int,
    target: RoomName,
    k: int,
) -> bool {
    &&& home_can_observe(homes, picks, i, target, k)
    &&& forall|j: int|
        #[trigger] home_can_observe(homes, picks, i, target, j) ==> spec_room_distance(target, homes[k].0)
            <= spec_room_distance(target, homes[j].0)
    &&& forall|j: int|
        0 <= j < k && #[trigger] home_can_observe(homes, picks, i, target, j) ==> spec_room_distance(
            target,
            homes[k].0,
        ) < spec_room_distance(target, homes[j].0)
}

proof fn lemma_uses_before_push(picks: Seq<Option<usize>>, x: Option<usize>, k: int, i: int)
    requires
        0 <= i <= picks.len(),
    ensures
        uses_before(picks.push(x), k, i) == uses_before(picks, k, i),
    decreases i,
{
    if i > 0 {
        lemma_uses_before_push(picks, x, k, i - 1);
    }
}

/// Hand out observers to targets in order: each target gets one observer
/// of the nearest home (the first on ties) that has one left and has the
/// target in range, or none. `homes` are `(room, observers)`; the result
/// names the home each target was served from.
pub fn assign_observers(targets: &[RoomName], homes: &[(RoomName, u32)]) -> (picks: Vec<Option<usize>>)
    ensures
        picks@.len() == targets@.len(),
        forall|i: int|
            0 <= i < targets@.len() ==> match #[trigger] picks@[i] {
                Some(k) => nearest_observer_home(homes@, picks@, i, targets@[i], k as int),
                None => forall|j: int| !home_can_observe(homes@, picks@, i, targets@[i], j),
            },
{
    let mut remaining: Vec<u32> = Vec::new();
    let mut h: usize = 0;
    while h < homes.len()
        invariant
            0 <= h <= homes@.len(),
            remaining@.len() == h,
            forall|k: int| 0 <= k < h ==> remaining@[k] == homes@[k].1,
        decreases homes@.len() - h,
    {
        remaining.push(homes[h].1);
        h += 1;
    }
    let mut picks: Vec<Option<usize>> = Vec::new();
    let mut i: usize = 0;
    while i < targets.len()
        invariant
            0 <= i <= targets@.len(),
            picks@.len() == i,
            remaining@.len() == homes@.len(),
            forall|k: int| 0 <= k < homes@.len() ==> remaining@[k] == homes@[k].1 - uses_before(picks@, k, i as int),
            forall|a: int|
                0 <= a < i ==> match #[trigger] picks@[a] {
                    Some(k) => nearest_observer_home(homes@, picks@, a, targets@[a], k as int),
                    None => forall|j: int| !home_can_observe(homes@, picks@, a, targets@[a], j),
                },
        decreases targets@.len() - i,
    {
        let target = targets[i];
        let mut best: Option<usize> = None;
        let mut best_range: u32 = 0;
        let mut k: usize = 0;
        while k < homes.len()
            invariant
                0 <= k <= homes@.len(),
                0 <= i < targets@.len(),
                target == targets@[i as int],
                picks@.len() == i,
                remaining@.len() == homes@.len(),
                forall|m: int| 0 <= m < homes@.len() ==> remaining@[m] == homes@[m].1 - uses_before(picks@, m, i as int),
                match best {
                    None => forall|j: int| 0 <= j < k ==> !home_can_observe(homes@, picks@, i as int, target, j),
                    Some(b) => {
                        &&& b < k
                        &&& best_range == spec_room_distance(target, homes@[b as int].0)
                        &&& home_can_observe(homes@, picks@, i as int, target, b as int)
                        &&& forall|j: int|
                            0 <= j < k && #[trigger] home_can_observe(homes@, picks@, i as int, target, j)
                                ==> best_range <= spec_room_distance(target, homes@[j].0)
                        &&& forall|j: int|
                            0 <= j < b && #[trigger] home_can_observe(homes@, picks@, i as int, target, j)
                                ==> best_range < spec_room_distance(target, homes@[j].0)
                    },
                },
            decreases homes@.len() - k,
        {
            if remaining[k] > 0 {
                let range = room_distance(target, homes[k].0);
                if range <= OBSERVER_RANGE {
                    let better = match best {
                        Some(_) => range < best_range,
                        None => true,
                    };
                    if better {
                        best = Some(k);
                        best_range = range;
                    }
                }
            }
            k += 1;
        }
        let ghost before = picks@;
        picks.push(best);
        proof {
            assert forall|m: int| 0 <= m < homes@.len() implies uses_before(picks@, m, i as int) == uses_before(
                before,
                m,
                i as int,
            ) by {
                lemma_uses_before_push(before, best, m, i as int);
            }
            assert forall|a: int, m: int| 0 <= a <= i implies uses_before(picks@, m, a) == uses_before(before, m, a) by {
                lemma_uses_before_push(before, best, m, a);
            }
            assert forall|a: int|
                0 <= a < i + 1 implies match #[trigger] picks@[a] {
                    Some(k) => nearest_observer_home(homes@, picks@, a, targets@[a], k as int),
                    None => forall|j: int| !home_can_observe(homes@, picks@, a, targets@[a], j),
                } by {
                assert forall|j: int| #[trigger] home_can_observe(homes@, picks@, a, targets@[a], j)
                    == home_can_observe(homes@, before, a, targets@[a], j) by {
                    lemma_uses_before_push(before, best, j, a);
                }
                if a < i {
                    assert(picks@[a] == before[a]);
                }
            }
        }
        match best {
            Some(b) => {
                proof {
                    assert(uses_before(picks@, b as int, i as int + 1) == uses_before(picks@, b as int, i as int) + 1);
                }
                let r = remaining[b] - 1;
                remaining.set(b, r);
            },
            None => {},
        }
        proof {
            assert forall|m: int| 0 <= m < homes@.len() implies remaining@[m] == homes@[m].1 - uses_before(
                picks@,
                m,
                i as int + 1,
            ) by {
                assert(uses_before(picks@, m, i as int + 1) == uses_before(picks@, m, i as int) + if picks@[i as int]
                    == Some(m as usize) {
                    1int
                } else {
                    0int
                });
            }
        }
        i += 1;
    }
    picks
}


/// A rotation over the first `j + 1` entries keeps entry `j` and every
/// earlier one fresh: an observer re-freshens each of `k` rotated rooms
/// every `k` ticks, so `k` must not exceed any taken room's window (a
/// window of 0 counts as 1).
pub open spec fn rotation_fits(windows: Seq<u32>, j: int) -> bool {
    forall|i: int| 0 <= i <= j ==> j + 1 <= if #[trigger] windows[i] >= 1 { windows[i] as int } else { 1int }
}

/// How many of the entries, taken in the given (value) order, one observer
/// can keep fresh by rotation: the longest prefix whose rotation fits.
pub fn observer_rotation_take(windows: &[u32]) -> (k: usize)
    ensures
        k <= windows@.len(),
        forall|j: int| 0 <= j < k ==> #[trigger] rotation_fits(windows@, j),
        k < windows@.len() ==> !rotation_fits(windows@, k as int),
{
    let mut min_window: u32 = u32::MAX;
    let mut k: usize = 0;
    while k < windows.len()
        invariant
            0 <= k <= windows@.len(),
            forall|j: int| 0 <= j < k ==> #[trigger] rotation_fits(windows@, j),
            forall|i: int|
                0 <= i < k ==> min_window <= if #[trigger] windows@[i] >= 1 { windows@[i] as int } else { 1int },
            k > 0 ==> exists|i: int|
                0 <= i < k && min_window == if #[trigger] windows@[i] >= 1 { windows@[i] as int } else { 1int },
            k == 0 ==> min_window == u32::MAX,
        decreases windows@.len() - k,
    {
        let w = windows[k];
        let window = if w >= 1 { w } else { 1 };
        let bound = if min_window <= window { min_window } else { window };
        if k >= bound as usize {
            proof {
                if min_window <= window && k > 0 {
                    let i = choose|i: int|
                        0 <= i < k && min_window == if #[trigger] windows@[i] >= 1 { windows@[i] as int } else { 1int };
                    assert(!(k + 1 <= if windows@[i] >= 1 { windows@[i] as int } else { 1int }));
                } else {
                    assert(!(k + 1 <= if windows@[k as int] >= 1 { windows@[k as int] as int } else { 1int }));
                }
            }
            return k;
        }
        proof {
            assert forall|i: int| 0 <= i <= k implies k + 1 <= if #[trigger] windows@[i] >= 1 {
                windows@[i] as int
            } else {
                1int
            } by {}
        }
        min_window = bound;
        k += 1;
    }
    k
}

} // verus!
