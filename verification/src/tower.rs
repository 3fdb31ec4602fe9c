//! Tower fire control: tower-drain detection on the hitpoint sawtooth, the
//! bounded probe that tests a confirmed drainer for a dead healer, and the
//! target picks that spend tower energy.
use vstd::prelude::*;
use crate::roomdata::sat_sub;
use std::collections::{HashMap, HashSet};

verus! {

broadcast use vstd::std_specs::hash::group_hash_axioms;

/// Observed heal-while-away cycles before a hostile is treated as a
/// confirmed tower drainer.
pub const DRAIN_CONFIRM_CYCLES: u32 = 1;

/// Failed probe volleys spent on one drainer before we stop testing it for
/// good: the bait ceiling.
pub const MAX_PROBE_STRIKES: u32 = 3;

/// Ticks to wait after a failed probe before testing the same drainer again.
pub const PROBE_COOLDOWN: u32 = 20;

/// Minimum hit drop between probe observations that counts as out-damaging
/// the heal.
pub const MIN_PROBE_PROGRESS: u32 = 200;

/// Tracks a hostile creep suspected of tower draining: it takes fire inside
/// the room, retreats, is healed outside and re-enters with more hits than
/// it left with.
#[derive(Clone, Copy, Debug, PartialEq, Eq, Structural)]
pub struct DrainTracker {
    /// Times the creep has been seen entering the room.
    pub enter_count: u32,
    /// Last tick the creep was seen in the room.
    pub last_seen_tick: u32,
    /// Whether the creep was in the room last tick.
    pub was_present: bool,
    /// Hits the most recent tick the creep was present.
    pub last_hits: u32,
    /// Hits the tick it most recently left the room.
    pub hits_on_exit: u32,
    /// Re-entries with more hits than it left with.
    pub drain_cycles: u32,
    /// A bounded probe is active: we fire at it to test its heal support.
    pub engaging: bool,
    /// Hits at the last probe observation.
    pub engage_baseline_hits: u32,
    /// A volley was spent on it last tick.
    pub probe_fired: bool,
    /// Failed probe volleys so far.
    pub probe_strikes: u32,
    /// Earliest tick a new probe may begin.
    pub probe_cooldown_until: u32,
}

/// A tracker for a creep never seen before.
pub open spec fn fresh_tracker() -> DrainTracker {
    DrainTracker {
        enter_count: 0,
        last_seen_tick: 0,
        was_present: false,
        last_hits: 0,
        hits_on_exit: 0,
        drain_cycles: 0,
        engaging: false,
        engage_baseline_hits: 0,
        probe_fired: false,
        probe_strikes: 0,
        probe_cooldown_until: 0,
    }
}

impl Default for DrainTracker {
    fn default() -> (t: DrainTracker)
        ensures
            t == fresh_tracker(),
    {
        DrainTracker {
            enter_count: 0,
            last_seen_tick: 0,
            was_present: false,
            last_hits: 0,
            hits_on_exit: 0,
            drain_cycles: 0,
            engaging: false,
            engage_baseline_hits: 0,
            probe_fired: false,
            probe_strikes: 0,
            probe_cooldown_until: 0,
        }
    }
}

/// A tracker's own invariant: strikes never pass the ceiling, and a probe
/// runs only against a confirmed drainer with strikes to spare.
pub open spec fn tracker_wf(t: DrainTracker) -> bool {
    &&& t.probe_strikes <= MAX_PROBE_STRIKES
    &&& t.engaging ==> t.probe_strikes < MAX_PROBE_STRIKES && t.drain_cycles >= DRAIN_CONFIRM_CYCLES
}

/// The creep is confirmed as a drainer.
pub open spec fn confirmed(t: DrainTracker) -> bool {
    t.drain_cycles >= DRAIN_CONFIRM_CYCLES
}

/// An entry re-enters with more hits than the creep left with.
pub open spec fn healed_return(t: DrainTracker, hits: u32) -> bool {
    !t.was_present && t.enter_count + 1 >= 2 && hits > t.hits_on_exit
}

/// Entry bookkeeping: an entry counts, and a healed return is a drain cycle.
pub open spec fn spec_entered(t: DrainTracker, hits: u32) -> DrainTracker {
    if t.was_present {
        t
    } else {
        DrainTracker {
            enter_count: (t.enter_count + 1) as u32,
            drain_cycles: if healed_return(t, hits) {
                (t.drain_cycles + 1) as u32
            } else {
                t.drain_cycles
            },
            ..t
        }
    }
}

/// The probe fired last tick without taking `MIN_PROBE_PROGRESS` hits off.
pub open spec fn probe_failed(t: DrainTracker, hits: u32) -> bool {
    confirmed(t) && t.engaging && t.probe_fired && sat_sub(t.engage_baseline_hits, hits) < MIN_PROBE_PROGRESS
}

/// Probe bookkeeping for a confirmed drainer: judge last tick's volley
/// (progress moves the baseline; no progress ends the probe with a strike
/// and a cooldown), or start a probe when strikes and the cooldown allow.
pub open spec fn spec_probed(t: DrainTracker, hits: u32, now: u32) -> DrainTracker {
    if !confirmed(t) {
        t
    } else if t.engaging {
        if !t.probe_fired {
            t
        } else if probe_failed(t, hits) {
            DrainTracker {
                engaging: false,
                probe_strikes: (t.probe_strikes + 1) as u32,
                probe_cooldown_until: (now + PROBE_COOLDOWN) as u32,
                probe_fired: false,
                ..t
            }
        } else {
            DrainTracker { engage_baseline_hits: hits, probe_fired: false, ..t }
        }
    } else if t.probe_strikes < MAX_PROBE_STRIKES && now >= t.probe_cooldown_until {
        DrainTracker { engaging: true, engage_baseline_hits: hits, ..t }
    } else {
        t
    }
}

/// One tick's observation of a hostile in the room with `hits` hits.
pub open spec fn spec_observe(t: DrainTracker, hits: u32, now: u32) -> DrainTracker {
    DrainTracker { last_hits: hits, last_seen_tick: now, was_present: true, ..spec_probed(spec_entered(t, hits), hits, now) }
}

/// The counters one observation bumps have room (they count up by one).
pub open spec fn observe_fits(t: DrainTracker, hits: u32, now: u32) -> bool {
    &&& !t.was_present ==> t.enter_count < u32::MAX
    &&& healed_return(t, hits) ==> t.drain_cycles < u32::MAX
    &&& probe_failed(spec_entered(t, hits), hits) ==> now + PROBE_COOLDOWN <= u32::MAX
}

/// The creep left the room: remember the hits it left with.
pub open spec fn spec_departed(t: DrainTracker) -> DrainTracker {
    DrainTracker { was_present: false, hits_on_exit: t.last_hits, ..t }
}

impl DrainTracker {
    /// Observe the creep in the room this tick with `hits` hits. Returns
    /// whether a probe is active against it (towers may fire at it).
    pub fn observe(&mut self, hits: u32, now: u32) -> (engaged: bool)
        requires
            tracker_wf(*old(self)),
            observe_fits(*old(self), hits, now),
        ensures
            *final(self) == spec_observe(*old(self), hits, now),
            engaged == (confirmed(*final(self)) && final(self).engaging),
            tracker_wf(*final(self)),
    {
        if !self.was_present {
            self.enter_count = self.enter_count + 1;
            if self.enter_count >= 2 && hits > self.hits_on_exit {
                self.drain_cycles = self.drain_cycles + 1;
            }
        }
        let mut engaged = false;
        if self.drain_cycles >= DRAIN_CONFIRM_CYCLES {
            if self.engaging {
                if self.probe_fired {
                    if self.engage_baseline_hits.saturating_sub(hits) >= MIN_PROBE_PROGRESS {
                        self.engage_baseline_hits = hits;
                    } else {
                        self.engaging = false;
                        self.probe_strikes = self.probe_strikes + 1;
                        self.probe_cooldown_until = now + PROBE_COOLDOWN;
                    }
                    self.probe_fired = false;
                }
            } else if self.probe_strikes < MAX_PROBE_STRIKES && now >= self.probe_cooldown_until {
                self.engaging = true;
                self.engage_baseline_hits = hits;
            }
            engaged = self.engaging;
        }
        self.last_hits = hits;
        self.last_seen_tick = now;
        self.was_present = true;
        engaged
    }

    /// The creep was not in the room this tick.
    pub fn depart(&mut self)
        ensures
            *final(self) == (if old(self).was_present {
                spec_departed(*old(self))
            } else {
                *old(self)
            }),
    {
        if self.was_present {
            self.was_present = false;
            self.hits_on_exit = self.last_hits;
        }
    }

    /// Confirmed as a tower drainer.
    pub fn is_confirmed(&self) -> (r: bool)
        ensures
            r == confirmed(*self),
    {
        self.drain_cycles >= DRAIN_CONFIRM_CYCLES
    }
}

/// Observation keeps a tracker's invariant: strikes never pass
/// [`MAX_PROBE_STRIKES`].
pub proof fn lemma_observe_keeps_wf(t: DrainTracker, hits: u32, now: u32)
    requires
        tracker_wf(t),
        observe_fits(t, hits, now),
    ensures
        tracker_wf(spec_observe(t, hits, now)),
        spec_observe(t, hits, now).probe_strikes <= MAX_PROBE_STRIKES,
{
}

/// Departure keeps a tracker's invariant.
pub proof fn lemma_depart_keeps_wf(t: DrainTracker)
    requires
        tracker_wf(t),
    ensures
        tracker_wf(spec_departed(t)),
{
}

/// A drain cycle is only ever counted on a return with more hits than the
/// creep left with: a creep that never comes back healthier is never
/// confirmed.
pub proof fn lemma_cycles_need_a_healed_return(t: DrainTracker, hits: u32, now: u32)
    requires
        observe_fits(t, hits, now),
    ensures
        spec_observe(t, hits, now).drain_cycles > t.drain_cycles ==> healed_return(t, hits),
        spec_observe(t, hits, now).drain_cycles >= t.drain_cycles,
        spec_observe(t, hits, now).drain_cycles <= t.drain_cycles + 1,
{
}

/// The bait ceiling: once a drainer has used up its strikes, no observation
/// starts another probe against it.
pub proof fn lemma_spent_drainer_is_never_probed_again(t: DrainTracker, hits: u32, now: u32)
    requires
        tracker_wf(t),
        observe_fits(t, hits, now),
        t.probe_strikes == MAX_PROBE_STRIKES,
    ensures
        !spec_observe(t, hits, now).engaging,
        spec_observe(t, hits, now).probe_strikes == MAX_PROBE_STRIKES,
{
}

/// Each failed probe costs exactly one strike, and only a failed probe does.
pub proof fn lemma_strikes_count_failed_probes(t: DrainTracker, hits: u32, now: u32)
    requires
        tracker_wf(t),
        observe_fits(t, hits, now),
    ensures
        spec_observe(t, hits, now).probe_strikes == t.probe_strikes + if probe_failed(
            spec_entered(t, hits),
            hits,
        ) {
            1int
        } else {
            0int
        },
{
}

/// Among `(hits, eligible)` candidates, the first eligible one with the
/// fewest hits.
pub fn weakest_eligible(candidates: &[(u32, bool)]) -> (r: Option<usize>)
    ensures
        r is None <==> forall|i: int| 0 <= i < candidates@.len() ==> !(#[trigger] candidates@[i]).1,
        r matches Some(k) ==> {
            &&& k < candidates@.len()
            &&& candidates@[k as int].1
            &&& forall|i: int|
                0 <= i < candidates@.len() && (#[trigger] candidates@[i]).1 ==> candidates@[k as int].0
                    <= candidates@[i].0
            &&& forall|i: int|
                0 <= i < k && (#[trigger] candidates@[i]).1 ==> candidates@[k as int].0 < candidates@[i].0
        },
{
    let mut best: Option<usize> = None;
    let mut i: usize = 0;
    while i < candidates.len()
        invariant
            0 <= i <= candidates@.len(),
            best is None <==> forall|a: int| 0 <= a < i ==> !(#[trigger] candidates@[a]).1,
            best matches Some(k) ==> {
                &&& k < i
                &&& candidates@[k as int].1
                &&& forall|a: int|
                    0 <= a < i && (#[trigger] candidates@[a]).1 ==> candidates@[k as int].0 <= candidates@[a].0
                &&& forall|a: int|
                    0 <= a < k && (#[trigger] candidates@[a]).1 ==> candidates@[k as int].0 < candidates@[a].0
            },
        decreases candidates@.len() - i,
    {
        let (hits, eligible) = candidates[i];
        if eligible {
            let better = match best {
                Some(k) => hits < candidates[k].0,
                None => true,
            };
            if better {
                best = Some(i);
            }
        }
        i += 1;
    }
    best
}

/// Under a drain, the non-drainers are fair game first; then confirmed
/// drainers under an active probe.
pub open spec fn drain_fire_eligible(h: (u32, bool, bool), probed: bool) -> bool {
    if probed { h.1 && h.2 } else { !h.1 }
}

/// `k` is the first eligible hostile with the fewest hits.
pub open spec fn first_weakest(hostiles: Seq<(u32, bool, bool)>, probed: bool, k: int) -> bool {
    &&& 0 <= k < hostiles.len()
    &&& drain_fire_eligible(hostiles[k], probed)
    &&& forall|i: int|
        0 <= i < hostiles.len() && drain_fire_eligible(#[trigger] hostiles[i], probed) ==> hostiles[k].0
            <= hostiles[i].0
    &&& forall|i: int|
        0 <= i < k && drain_fire_eligible(#[trigger] hostiles[i], probed) ==> hostiles[k].0 < hostiles[i].0
}

/// Fire under a detected tower drain, over `(hits, confirmed_drainer,
/// probe_engaged)` hostiles: the weakest non-drainer; failing that, the
/// weakest confirmed drainer under an active probe; otherwise hold fire.
pub fn drain_response_target(hostiles: &[(u32, bool, bool)]) -> (r: Option<usize>)
    ensures
        (exists|i: int| 0 <= i < hostiles@.len() && drain_fire_eligible(#[trigger] hostiles@[i], false)) ==> (r
            is Some && first_weakest(hostiles@, false, r->0 as int)),
        (forall|i: int| 0 <= i < hostiles@.len() ==> !drain_fire_eligible(#[trigger] hostiles@[i], false)) ==> (
        match r {
            None => forall|i: int| 0 <= i < hostiles@.len() ==> !drain_fire_eligible(#[trigger] hostiles@[i], true),
            Some(k) => first_weakest(hostiles@, true, k as int),
        }),
{
    let mut non_drainers: Vec<(u32, bool)> = Vec::new();
    let mut probed: Vec<(u32, bool)> = Vec::new();
    let mut i: usize = 0;
    while i < hostiles.len()
        invariant
            0 <= i <= hostiles@.len(),
            non_drainers@.len() == i,
            probed@.len() == i,
            forall|a: int|
                0 <= a < i ==> #[trigger] non_drainers@[a] == (hostiles@[a].0, !hostiles@[a].1),
            forall|a: int|
                0 <= a < i ==> #[trigger] probed@[a] == (hostiles@[a].0, hostiles@[a].1 && hostiles@[a].2),
        decreases hostiles@.len() - i,
    {
        let (hits, drainer, engaged) = hostiles[i];
        non_drainers.push((hits, !drainer));
        probed.push((hits, drainer && engaged));
        i += 1;
    }
    proof {
        assert forall|a: int| 0 <= a < hostiles@.len() implies (non_drainers@[a].1 == drain_fire_eligible(
            #[trigger] hostiles@[a],
            false,
        ) && probed@[a].1 == drain_fire_eligible(hostiles@[a], true) && non_drainers@[a].0 == hostiles@[a].0
            && probed@[a].0 == hostiles@[a].0) by {
            assert(non_drainers@[a] == (hostiles@[a].0, !hostiles@[a].1));
            assert(probed@[a] == (hostiles@[a].0, hostiles@[a].1 && hostiles@[a].2));
        }
    }
    match weakest_eligible(&non_drainers) {
        Some(k) => {
            proof {
                assert(drain_fire_eligible(hostiles@[k as int], false));
                assert(first_weakest(hostiles@, false, k as int)) by {
                    assert forall|a: int|
                        0 <= a < hostiles@.len() && drain_fire_eligible(#[trigger] hostiles@[a], false) implies hostiles@[k as int].0
                            <= hostiles@[a].0 by {
                        assert(non_drainers@[a].1);
                    }
                    assert forall|a: int|
                        0 <= a < k && drain_fire_eligible(#[trigger] hostiles@[a], false) implies hostiles@[k as int].0
                            < hostiles@[a].0 by {
                        assert(non_drainers@[a].1);
                    }
                }
            }
            Some(k)
        },
        None => {
            proof {
                assert forall|a: int| 0 <= a < hostiles@.len() implies !drain_fire_eligible(
                    #[trigger] hostiles@[a],
                    false,
                ) by {
                    assert(!non_drainers@[a].1);
                }
            }
            let r = weakest_eligible(&probed);
            proof {
                match r {
                    None => {
                        assert forall|a: int| 0 <= a < hostiles@.len() implies !drain_fire_eligible(
                            #[trigger] hostiles@[a],
                            true,
                        ) by {
                            assert(!probed@[a].1);
                        }
                    },
                    Some(k) => {
                        assert(drain_fire_eligible(hostiles@[k as int], true));
                        assert forall|a: int|
                            0 <= a < hostiles@.len() && drain_fire_eligible(#[trigger] hostiles@[a], true) implies hostiles@[k as int].0
                                <= hostiles@[a].0 by {
                            assert(probed@[a].1);
                        }
                        assert forall|a: int|
                            0 <= a < k && drain_fire_eligible(#[trigger] hostiles@[a], true) implies hostiles@[k as int].0
                                < hostiles@[a].0 by {
                            assert(probed@[a].1);
                        }
                    },
                }
            }
            r
        },
    }
}


/// A hostile creep as tower fire control sees it.
#[derive(Clone, Copy, Debug, PartialEq, Eq, Structural)]
pub struct TowerHostile {
    pub hits: u32,
    /// Has an attack, ranged attack or work part.
    pub dangerous: bool,
    /// The towers' combined damage at its position exceeds its healing.
    pub net_damage: bool,
    /// A confirmed tower drainer.
    pub drainer: bool,
    /// Under an active probe.
    pub probe_engaged: bool,
    /// Sits where it can heal through all tower damage (a likely drain).
    pub likely_drain: bool,
}

/// What the towers do this tick about hostiles.
#[derive(Clone, Copy, Debug, PartialEq, Eq, Structural)]
pub enum TowerVolley {
    /// All towers fire at hostile `target`; `probe` records a probe volley
    /// on it.
    Attack { target: usize, probe: bool },
    /// Hold fire.
    Hold,
}

/// A hostile the towers can out-damage and that is not a known drainer.
pub open spec fn worth_firing(h: TowerHostile) -> bool {
    !h.drainer && h.net_damage
}

/// `a` goes before `b`: dangerous hostiles first, then fewer hits.
pub open spec fn fire_before(a: TowerHostile, b: TowerHostile) -> bool {
    (a.dangerous && !b.dangerous) || (a.dangerous == b.dangerous && a.hits < b.hits)
}

/// `k` is the first hostile worth firing at that no other goes before.
pub open spec fn first_best_target(s: Seq<TowerHostile>, k: int) -> bool {
    &&& 0 <= k < s.len()
    &&& worth_firing(s[k])
    &&& forall|i: int| 0 <= i < s.len() && worth_firing(#[trigger] s[i]) ==> !fire_before(s[i], s[k])
    &&& forall|i: int| 0 <= i < k && worth_firing(#[trigger] s[i]) ==> fire_before(s[k], s[i])
}

/// The `(hits, confirmed drainer, probe engaged)` view of a hostile.
pub open spec fn drain_view(h: TowerHostile) -> (u32, bool, bool) {
    (h.hits, h.drainer, h.probe_engaged)
}

/// The first hostile worth firing at, dangerous ones first, then the
/// fewest hits.
fn best_tower_target(hostiles: &[TowerHostile]) -> (r: Option<usize>)
    ensures
        r is None <==> forall|i: int| 0 <= i < hostiles@.len() ==> !worth_firing(#[trigger] hostiles@[i]),
        r matches Some(k) ==> first_best_target(hostiles@, k as int),
{
    let mut best: Option<usize> = None;
    let mut i: usize = 0;
    while i < hostiles.len()
        invariant
            0 <= i <= hostiles@.len(),
            best is None <==> forall|a: int| 0 <= a < i ==> !worth_firing(#[trigger] hostiles@[a]),
            best matches Some(k) ==> {
                &&& k < i
                &&& worth_firing(hostiles@[k as int])
                &&& forall|a: int|
                    0 <= a < i && worth_firing(#[trigger] hostiles@[a]) ==> !fire_before(hostiles@[a], hostiles@[k as int])
                &&& forall|a: int|
                    0 <= a < k && worth_firing(#[trigger] hostiles@[a]) ==> fire_before(hostiles@[k as int], hostiles@[a])
            },
        decreases hostiles@.len() - i,
    {
        let h = hostiles[i];
        if !h.drainer && h.net_damage {
            let better = match best {
                Some(k) => {
                    let b = hostiles[k];
                    (h.dangerous && !b.dangerous) || (h.dangerous == b.dangerous && h.hits < b.hits)
                },
                None => true,
            };
            if better {
                best = Some(i);
            }
        }
        i += 1;
    }
    best
}

/// Some hostile is a confirmed drainer or sits where it can heal through
/// the towers.
pub open spec fn drain_suspected(s: Seq<TowerHostile>) -> bool {
    exists|i: int| 0 <= i < s.len() && ((#[trigger] s[i]).drainer || s[i].likely_drain)
}

/// What the towers fire at while hostiles are in the room: the first
/// hostile worth firing at (not a drainer, out-damaged by the towers),
/// dangerous ones first, then the fewest hits. When there is none and a
/// drain is suspected, fire is conserved: the weakest non-drainer, else
/// the weakest drainer under an active probe (recording the probe when the
/// target is engaged), else hold. With no drain suspected, the weakest
/// non-drainer, else hold.
pub fn tower_volley(hostiles: &[TowerHostile]) -> (v: TowerVolley)
    ensures
        (exists|i: int| 0 <= i < hostiles@.len() && worth_firing(#[trigger] hostiles@[i])) ==> (v matches TowerVolley::Attack {
            target,
            probe,
        } && first_best_target(hostiles@, target as int) && !probe),
        (forall|i: int| 0 <= i < hostiles@.len() ==> !worth_firing(#[trigger] hostiles@[i])) ==> {
            let d = hostiles@.map_values(|h: TowerHostile| drain_view(h));
            if drain_suspected(hostiles@) {
                if exists|i: int| 0 <= i < d.len() && drain_fire_eligible(#[trigger] d[i], false) {
                    v matches TowerVolley::Attack { target, probe } && first_weakest(d, false, target as int)
                        && probe == hostiles@[target as int].probe_engaged
                } else {
                    match v {
                        TowerVolley::Hold => forall|i: int| 0 <= i < d.len() ==> !drain_fire_eligible(#[trigger] d[i], true),
                        TowerVolley::Attack { target, probe } => first_weakest(d, true, target as int) && probe,
                    }
                }
            } else {
                match v {
                    TowerVolley::Hold => forall|i: int| 0 <= i < d.len() ==> !drain_fire_eligible(#[trigger] d[i], false),
                    TowerVolley::Attack { target, probe } => first_weakest(d, false, target as int) && !probe,
                }
            }
        },
{
    let ghost d = hostiles@.map_values(|h: TowerHostile| drain_view(h));
    if let Some(k) = best_tower_target(hostiles) {
        return TowerVolley::Attack { target: k, probe: false };
    }
    let mut views: Vec<(u32, bool, bool)> = Vec::new();
    let mut suspected = false;
    let mut i: usize = 0;
    while i < hostiles.len()
        invariant
            0 <= i <= hostiles@.len(),
            d == hostiles@.map_values(|h: TowerHostile| drain_view(h)),
            views@ == d.take(i as int),
            suspected == exists|a: int| 0 <= a < i && ((#[trigger] hostiles@[a]).drainer || hostiles@[a].likely_drain),
        decreases hostiles@.len() - i,
    {
        let h = hostiles[i];
        views.push((h.hits, h.drainer, h.probe_engaged));
        proof {
            assert(d.take(i as int + 1) == d.take(i as int).push(d[i as int]));
            if h.drainer || h.likely_drain {
                assert(hostiles@[i as int].drainer || hostiles@[i as int].likely_drain);
            }
        }
        suspected = suspected || h.drainer || h.likely_drain;
        i += 1;
    }
    proof {
        assert(d.take(d.len() as int) == d);
        assert(views@ == d);
        assert(suspected == drain_suspected(hostiles@));
    }
    if suspected {
        let r = drain_response_target(&views);
        match r {
            Some(t) => {
                proof {
                    assert(d[t as int] == drain_view(hostiles@[t as int]));
                }
                TowerVolley::Attack { target: t, probe: hostiles[t].probe_engaged }
            },
            None => TowerVolley::Hold,
        }
    } else {
        let mut plain: Vec<(u32, bool)> = Vec::new();
        let mut j: usize = 0;
        while j < views.len()
            invariant
                0 <= j <= views@.len(),
                views@ == d,
                plain@.len() == j,
                forall|a: int| 0 <= a < j ==> #[trigger] plain@[a] == (d[a].0, !d[a].1),
            decreases views@.len() - j,
        {
            let (hits, drainer, _) = views[j];
            plain.push((hits, !drainer));
            j += 1;
        }
        let r = weakest_eligible(&plain);
        proof {
            assert forall|a: int| 0 <= a < d.len() implies (#[trigger] plain@[a]).1 == drain_fire_eligible(d[a], false)
                && plain@[a].0 == d[a].0 by {
                assert(plain@[a] == (d[a].0, !d[a].1));
            }
            match r {
                None => {
                    assert forall|a: int| 0 <= a < d.len() implies !drain_fire_eligible(#[trigger] d[a], false) by {
                        assert(!plain@[a].1);
                    }
                },
                Some(k) => {
                    assert(plain@[k as int].1);
                    assert forall|a: int|
                        0 <= a < d.len() && drain_fire_eligible(#[trigger] d[a], false) implies d[k as int].0 <= d[a].0 by {
                        assert(plain@[a].1);
                    }
                    assert forall|a: int|
                        0 <= a < k && drain_fire_eligible(#[trigger] d[a], false) implies d[k as int].0 < d[a].0 by {
                        assert(plain@[a].1);
                    }
                    assert(first_weakest(d, false, k as int));
                },
            }
        }
        match r {
            Some(t) => TowerVolley::Attack { target: t, probe: false },
            None => TowerVolley::Hold,
        }
    }
}

/// The friendly creep the towers heal when no hostile is in the room: the
/// first damaged one with the fewest hits. Creeps are `(hits, hits_max)`.
pub fn heal_target(friendlies: &[(u32, u32)]) -> (r: Option<usize>)
    ensures
        r is None <==> forall|i: int| 0 <= i < friendlies@.len() ==> (#[trigger] friendlies@[i]).0 >= friendlies@[i].1,
        r matches Some(k) ==> {
            &&& k < friendlies@.len()
            &&& friendlies@[k as int].0 < friendlies@[k as int].1
            &&& forall|i: int|
                0 <= i < friendlies@.len() && (#[trigger] friendlies@[i]).0 < friendlies@[i].1 ==> friendlies@[k as int].0
                    <= friendlies@[i].0
            &&& forall|i: int|
                0 <= i < k && (#[trigger] friendlies@[i]).0 < friendlies@[i].1 ==> friendlies@[k as int].0
                    < friendlies@[i].0
        },
{
    let mut candidates: Vec<(u32, bool)> = Vec::new();
    let mut i: usize = 0;
    while i < friendlies.len()
        invariant
            0 <= i <= friendlies@.len(),
            candidates@.len() == i,
            forall|a: int|
                0 <= a < i ==> #[trigger] candidates@[a] == (friendlies@[a].0, friendlies@[a].0 < friendlies@[a].1),
        decreases friendlies@.len() - i,
    {
        let (hits, hits_max) = friendlies[i];
        candidates.push((hits, hits < hits_max));
        i += 1;
    }
    let r = weakest_eligible(&candidates);
    proof {
        assert forall|a: int| 0 <= a < friendlies@.len() implies #[trigger] friendlies@[a] == friendlies@[a] && candidates@[a].1 == (friendlies@[a].0
            < friendlies@[a].1) && candidates@[a].0 == friendlies@[a].0 by {
            assert(candidates@[a] == (friendlies@[a].0, friendlies@[a].0 < friendlies@[a].1));
        }
        match r {
            None => {
                assert forall|i: int| 0 <= i < friendlies@.len() implies (#[trigger] friendlies@[i]).0 >= friendlies@[i].1 by {
                    assert(!candidates@[i].1);
                }
            },
            Some(k) => {
                assert(candidates@[k as int].1);
                assert forall|i: int|
                    0 <= i < friendlies@.len() && (#[trigger] friendlies@[i]).0 < friendlies@[i].1 implies friendlies@[k as int].0
                        <= friendlies@[i].0 by {
                    assert(candidates@[i].1);
                }
                assert forall|i: int|
                    0 <= i < k && (#[trigger] friendlies@[i]).0 < friendlies@[i].1 implies friendlies@[k as int].0
                        < friendlies@[i].0 by {
                    assert(candidates@[i].1);
                }
            },
        }
    }
    r
}

/// The minimum repair priority the towers serve: medium while hostile
/// creeps are about, low otherwise.
pub fn tower_repair_minimum(hostile_creeps: bool) -> (r: crate::repairqueue::RepairPriority)
    ensures
        r == if hostile_creeps {
            crate::repairqueue::RepairPriority::Medium
        } else {
            crate::repairqueue::RepairPriority::Low
        },
{
    if hostile_creeps {
        crate::repairqueue::RepairPriority::Medium
    } else {
        crate::repairqueue::RepairPriority::Low
    }
}

/// Trackers by hostile creep id (the id's packed 96 bits).
pub open spec fn trackers_wf(m: Map<u128, DrainTracker>) -> bool {
    forall|k: u128| #[trigger] m.contains_key(k) ==> tracker_wf(m[k])
}

/// The tracker a creep has, or a fresh one.
pub open spec fn tracker_or_fresh(m: Map<u128, DrainTracker>, id: u128) -> DrainTracker {
    if m.contains_key(id) { m[id] } else { fresh_tracker() }
}

/// Trackers after observing each `(id, hits)` hostile in turn.
pub open spec fn observe_all(m: Map<u128, DrainTracker>, hostiles: Seq<(u128, u32)>, now: u32) -> Map<
    u128,
    DrainTracker,
>
    decreases hostiles.len(),
{
    if hostiles.len() == 0 {
        m
    } else {
        let prev = observe_all(m, hostiles.drop_last(), now);
        let (id, hits) = hostiles.last();
        prev.insert(id, spec_observe(tracker_or_fresh(prev, id), hits, now))
    }
}

/// The hostiles, in turn, that came out of their observation under an
/// active probe.
pub open spec fn engaged_all(m: Map<u128, DrainTracker>, hostiles: Seq<(u128, u32)>, now: u32) -> Seq<u128>
    decreases hostiles.len(),
{
    if hostiles.len() == 0 {
        Seq::empty()
    } else {
        let prev = observe_all(m, hostiles.drop_last(), now);
        let (id, hits) = hostiles.last();
        let t = spec_observe(tracker_or_fresh(prev, id), hits, now);
        let before = engaged_all(m, hostiles.drop_last(), now);
        if confirmed(t) && t.engaging { before.push(id) } else { before }
    }
}

/// Every observation in turn has room for the counters it bumps.
pub open spec fn observations_fit(m: Map<u128, DrainTracker>, hostiles: Seq<(u128, u32)>, now: u32) -> bool {
    forall|i: int|
        0 <= i < hostiles.len() ==> observe_fits(
            tracker_or_fresh(observe_all(m, hostiles.take(i), now), (#[trigger] hostiles[i]).0),
            hostiles[i].1,
            now,
        )
}

/// A creep absent this tick leaves (if it was in the room).
pub open spec fn absent(t: DrainTracker) -> DrainTracker {
    if t.was_present { spec_departed(t) } else { t }
}

/// Trackers not seen for this many ticks are dropped at cleanup.
pub const DRAIN_TRACKER_TTL: u32 = 500;

/// Cleanup runs once more than this many ticks have passed since the last.
pub const DRAIN_CLEANUP_INTERVAL: u32 = 100;

proof fn lemma_observe_all_wf(m: Map<u128, DrainTracker>, hostiles: Seq<(u128, u32)>, now: u32, n: int)
    requires
        trackers_wf(m),
        0 <= n <= hostiles.len(),
        observations_fit(m, hostiles, now),
    ensures
        trackers_wf(observe_all(m, hostiles.take(n), now)),
    decreases n,
{
    assert(hostiles.take(0) =~= Seq::<(u128, u32)>::empty());
    if n > 0 {
        lemma_observe_all_wf(m, hostiles, now, n - 1);
        assert(hostiles.take(n).drop_last() =~= hostiles.take(n - 1));
        let prev = observe_all(m, hostiles.take(n - 1), now);
        let (id, hits) = hostiles[n - 1];
        assert(observe_fits(tracker_or_fresh(prev, id), hits, now));
        lemma_observe_keeps_wf(tracker_or_fresh(prev, id), hits, now);
    }
}

/// One more observation extends the trackers and the engaged ids by the
/// next hostile.
proof fn lemma_observe_step(m: Map<u128, DrainTracker>, hostiles: Seq<(u128, u32)>, now: u32, i: int)
    requires
        0 <= i < hostiles.len(),
        observations_fit(m, hostiles, now),
    ensures
        ({
            let prev = observe_all(m, hostiles.take(i), now);
            let (id, hits) = hostiles[i];
            let t = spec_observe(tracker_or_fresh(prev, id), hits, now);
            &&& observe_fits(tracker_or_fresh(prev, id), hits, now)
            &&& observe_all(m, hostiles.take(i + 1), now) == prev.insert(id, t)
            &&& engaged_all(m, hostiles.take(i + 1), now) == if confirmed(t) && t.engaging {
                engaged_all(m, hostiles.take(i), now).push(id)
            } else {
                engaged_all(m, hostiles.take(i), now)
            }
        }),
{
    assert(hostiles.take(i + 1).drop_last() =~= hostiles.take(i));
    assert(hostiles.take(i + 1).last() == hostiles[i]);
}

/// The tower's drain watch: a tracker per hostile creep, and when stale
/// trackers were last swept.
pub struct DrainWatch {
    pub trackers: HashMap<u128, DrainTracker>,
    pub last_drain_cleanup: u32,
}

impl DrainWatch {
    pub fn new() -> (w: DrainWatch)
        ensures
            w.trackers@ == Map::<u128, DrainTracker>::empty(),
            w.last_drain_cleanup == 0,
    {
        DrainWatch { trackers: HashMap::new(), last_drain_cleanup: 0 }
    }

    /// Observe one hostile: its tracker (a fresh one if it has none) sees
    /// it with `hits` hits. Returns whether it is under an active probe.
    fn observe_one(&mut self, id: u128, hits: u32, now: u32) -> (on: bool)
        requires
            trackers_wf(old(self).trackers@),
            observe_fits(tracker_or_fresh(old(self).trackers@, id), hits, now),
        ensures
            final(self).trackers@ == old(self).trackers@.insert(
                id,
                spec_observe(tracker_or_fresh(old(self).trackers@, id), hits, now),
            ),
            on == (confirmed(spec_observe(tracker_or_fresh(old(self).trackers@, id), hits, now)) && spec_observe(
                tracker_or_fresh(old(self).trackers@, id),
                hits,
                now,
            ).engaging),
            final(self).last_drain_cleanup == old(self).last_drain_cleanup,
    {
        proof {
            assert(vstd::std_specs::hash::obeys_key_model::<u128>());
        }
        let mut t = match self.trackers.get(&id) {
            Some(t) => *t,
            None => DrainTracker::default(),
        };
        let on = t.observe(hits, now);
        self.trackers.insert(id, t);
        on
    }

    /// Observe each `(id, hits)` hostile in the room this tick, in turn.
    /// Returns the ids that came out under an active probe.
    pub fn observe_hostiles(&mut self, hostiles: &[(u128, u32)], now: u32) -> (engaged: Vec<u128>)
        requires
            trackers_wf(old(self).trackers@),
            observations_fit(old(self).trackers@, hostiles@, now),
        ensures
            final(self).trackers@ == observe_all(old(self).trackers@, hostiles@, now),
            engaged@ == engaged_all(old(self).trackers@, hostiles@, now),
            trackers_wf(final(self).trackers@),
            final(self).last_drain_cleanup == old(self).last_drain_cleanup,
    {
        proof {
            assert(vstd::std_specs::hash::obeys_key_model::<u128>());
        }
        let ghost m = self.trackers@;
        let mut engaged: Vec<u128> = Vec::new();
        let mut i: usize = 0;
        proof {
            assert(hostiles@.take(0) =~= Seq::<(u128, u32)>::empty());
        }
        while i < hostiles.len()
            invariant
                0 <= i <= hostiles@.len(),
                m == old(self).trackers@,
                trackers_wf(m),
                observations_fit(m, hostiles@, now),
                self.trackers@ == observe_all(m, hostiles@.take(i as int), now),
                engaged@ == engaged_all(m, hostiles@.take(i as int), now),
                self.last_drain_cleanup == old(self).last_drain_cleanup,
            decreases hostiles@.len() - i,
        {
            let (id, hits) = hostiles[i];
            proof {
                lemma_observe_all_wf(m, hostiles@, now, i as int);
                lemma_observe_step(m, hostiles@, now, i as int);
            }
            let on = self.observe_one(id, hits, now);
            if on {
                engaged.push(id);
            }
            i += 1;
        }
        proof {
            assert(hostiles@.take(hostiles@.len() as int) =~= hostiles@);
            lemma_observe_all_wf(m, hostiles@, now, hostiles@.len() as int);
        }
        engaged
    }

    /// Every tracked creep not among `present` this tick leaves the room
    /// (remembering the hits it left with).
    pub fn mark_departed(&mut self, present: &[u128])
        ensures
            final(self).trackers@ == Map::new(
                |k: u128| old(self).trackers@.contains_key(k),
                |k: u128|
                    if present@.contains(k) {
                        old(self).trackers@[k]
                    } else {
                        absent(old(self).trackers@[k])
                    },
            ),
            final(self).last_drain_cleanup == old(self).last_drain_cleanup,
            trackers_wf(old(self).trackers@) ==> trackers_wf(final(self).trackers@),
    {
        proof {
            assert(vstd::std_specs::hash::obeys_key_model::<u128>());
        }
        let ghost m = self.trackers@;
        let ghost target = Map::new(
            |k: u128| m.contains_key(k),
            |k: u128| if present@.contains(k) { m[k] } else { absent(m[k]) },
        );
        let mut next: HashMap<u128, DrainTracker> = HashMap::new();
        for pair in it: self.trackers.iter()
            invariant
                m == self.trackers@,
                target == Map::new(
                    |k: u128| m.contains_key(k),
                    |k: u128| if present@.contains(k) { m[k] } else { absent(m[k]) },
                ),
                forall|k: u128|
                    #[trigger] next@.contains_key(k) ==> target.contains_key(k) && next@[k] == target[k],
                forall|j: int| 0 <= j < it.index() ==> next@.contains_key(*(#[trigger] it.seq()[j]).0),
        {
            let (k, t) = pair;
            let mut u = *t;
            if !contains_id(present, *k) {
                u.depart();
            }
            next.insert(*k, u);
        }
        proof {
            assert forall|k: u128| #[trigger] target.contains_key(k) implies next@.contains_key(k) by {
                assert(m.contains_key(k));
            }
            assert(next@ =~= target);
        }
        self.trackers = next;
    }
}

impl DrainWatch {
    /// Sweep stale trackers: once more than [`DRAIN_CLEANUP_INTERVAL`] ticks
    /// have passed since the last sweep, keep only trackers seen within
    /// [`DRAIN_TRACKER_TTL`] ticks. Ticks ahead of `now` (a clock reset)
    /// read as no time passed: no sweep is due, and a tracker seen "later"
    /// is fresh.
    pub fn cleanup(&mut self, now: u32)
        ensures
            if sat_sub(now, old(self).last_drain_cleanup) > DRAIN_CLEANUP_INTERVAL {
                &&& final(self).trackers@ == Map::new(
                    |k: u128|
                        old(self).trackers@.contains_key(k) && sat_sub(now, old(self).trackers@[k].last_seen_tick)
                            < DRAIN_TRACKER_TTL,
                    |k: u128| old(self).trackers@[k],
                )
                &&& final(self).last_drain_cleanup == now
            } else {
                &&& final(self).trackers@ == old(self).trackers@
                &&& final(self).last_drain_cleanup == old(self).last_drain_cleanup
            },
            trackers_wf(old(self).trackers@) ==> trackers_wf(final(self).trackers@),
    {
        proof {
            assert(vstd::std_specs::hash::obeys_key_model::<u128>());
        }
        if now.saturating_sub(self.last_drain_cleanup) <= DRAIN_CLEANUP_INTERVAL {
            return;
        }
        let ghost m = self.trackers@;
        let ghost target = Map::new(
            |k: u128| m.contains_key(k) && sat_sub(now, m[k].last_seen_tick) < DRAIN_TRACKER_TTL,
            |k: u128| m[k],
        );
        let mut next: HashMap<u128, DrainTracker> = HashMap::new();
        for pair in it: self.trackers.iter()
            invariant
                m == self.trackers@,
                target == Map::new(
                    |k: u128| m.contains_key(k) && sat_sub(now, m[k].last_seen_tick) < DRAIN_TRACKER_TTL,
                    |k: u128| m[k],
                ),
                forall|k: u128|
                    #[trigger] next@.contains_key(k) ==> target.contains_key(k) && next@[k] == target[k],
                forall|j: int|
                    0 <= j < it.index() && target.contains_key(*(#[trigger] it.seq()[j]).0) ==> next@.contains_key(
                        *it.seq()[j].0,
                    ),
        {
            let (k, t) = pair;
            proof {
                assert(it.seq()[it.index()] == pair);
                assert(m.contains_key(*it.seq()[it.index()].0));
            }
            if now.saturating_sub(t.last_seen_tick) < DRAIN_TRACKER_TTL {
                next.insert(*k, *t);
            }
        }
        proof {
            assert forall|k: u128| #[trigger] target.contains_key(k) implies next@.contains_key(k) by {
                assert(m.contains_key(k));
            }
            assert(next@ =~= target);
        }
        self.trackers = next;
        self.last_drain_cleanup = now;
    }

    /// Ids of the creeps confirmed as tower drainers.
    pub fn confirmed_drainers(&self) -> (r: HashSet<u128>)
        ensures
            r@ == Set::new(|k: u128| self.trackers@.contains_key(k) && confirmed(self.trackers@[k])),
    {
        proof {
            assert(vstd::std_specs::hash::obeys_key_model::<u128>());
        }
        let ghost m = self.trackers@;
        let mut r: HashSet<u128> = HashSet::new();
        for pair in it: self.trackers.iter()
            invariant
                m == self.trackers@,
                forall|k: u128| #[trigger] r@.contains(k) ==> m.contains_key(k) && confirmed(m[k]),
                forall|j: int|
                    0 <= j < it.index() && confirmed(*(#[trigger] it.seq()[j]).1) ==> r@.contains(*it.seq()[j].0),
        {
            let (k, t) = pair;
            if t.drain_cycles >= DRAIN_CONFIRM_CYCLES {
                r.insert(*k);
            }
        }
        proof {
            assert forall|k: u128| m.contains_key(k) && confirmed(m[k]) implies #[trigger] r@.contains(k) by {
            }
            assert(r@ =~= Set::new(|k: u128| m.contains_key(k) && confirmed(m[k])));
        }
        r
    }

    /// A tower volley was spent on `id` this tick (a probe to judge next
    /// tick).
    pub fn record_probe_fired(&mut self, id: u128)
        ensures
            final(self).trackers@ == (if old(self).trackers@.contains_key(id) {
                old(self).trackers@.insert(id, DrainTracker { probe_fired: true, ..old(self).trackers@[id] })
            } else {
                old(self).trackers@
            }),
            final(self).last_drain_cleanup == old(self).last_drain_cleanup,
            trackers_wf(old(self).trackers@) ==> trackers_wf(final(self).trackers@),
    {
        proof {
            assert(vstd::std_specs::hash::obeys_key_model::<u128>());
        }
        let found = match self.trackers.get(&id) {
            Some(t) => Some(*t),
            None => None,
        };
        if let Some(t) = found {
            self.trackers.insert(id, DrainTracker { probe_fired: true, ..t });
        }
    }
}

/// `id` is among `ids`.
fn contains_id(ids: &[u128], id: u128) -> (r: bool)
    ensures
        r == ids@.contains(id),
{
    let mut i: usize = 0;
    while i < ids.len()
        invariant
            0 <= i <= ids@.len(),
            forall|a: int| 0 <= a < i ==> ids@[a] != id,
        decreases ids@.len() - i,
    {
        if ids[i] == id {
            assert(ids@[i as int] == id);
            return true;
        }
        i += 1;
    }
    false
}

} // verus!
