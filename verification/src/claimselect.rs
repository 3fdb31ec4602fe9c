//! The claim pipeline's select pass: walk the ranked candidates, defer
//! those that are not ready, and commit claim missions to the best ones,
//! each served by up to two homes that no other claim of the pass takes.
//!
//! The pass is a fold over the candidates in rank order; its state is the
//! outcomes so far, which homes are taken, and how many missions were
//! created. It stops at the mission budget, or at the first candidate
//! after a commit whose score falls too far below the best.
use vstd::prelude::*;
use crate::claim::CLAIMER_COST;
use crate::geometry::RoomName;
use crate::scoutassignment::{lemma_room_order_total, room_before, room_name_lt};

verus! {

/// A ranked claim candidate as the select pass sees it.
#[derive(Clone, Copy, Debug, PartialEq, Eq, Structural)]
pub struct ClaimCandidate {
    /// Its score is within the allowed delta of the best score.
    pub within_score_delta: bool,
    /// A room below the ring separation may be claimed now.
    pub may_claim_below_ring: bool,
    /// The room has an entity.
    pub mapped: bool,
    /// Whether its room plan is valid (`None`: no plan yet).
    pub plan_valid: Option<bool>,
    /// It passes the commit-time safety re-check (or the check is off).
    pub safe: bool,
    /// Its room data is loaded.
    pub has_room_data: bool,
    /// A claim mission already targets it.
    pub has_claim_mission: bool,
}

/// An owned home room that could send a claimer.
#[derive(Clone, Copy, Debug, PartialEq, Eq, Structural)]
pub struct ClaimHome {
    pub room: RoomName,
    pub energy_capacity: u32,
}

/// How a home relates to one candidate.
#[derive(Clone, Copy, Debug, PartialEq, Eq, Structural)]
pub struct HomeFit {
    /// The discovery search reached the candidate from this home.
    pub search_home: bool,
    /// The claim corridor from this home to the candidate is feasible.
    pub route_ok: bool,
}

/// What the select pass did with one candidate.
#[derive(Clone, Copy, Debug, PartialEq, Eq, Structural)]
pub enum ClaimSelect {
    /// Passed over this cycle.
    Skip,
    /// Its plan is missing or failed: a plan is requested, no claim.
    RequestPlan,
    /// A claim mission already targets it.
    AlreadyClaimed,
    /// No home can serve it.
    NoHome,
    /// A claim mission is created, served by these homes.
    Commit { first: usize, second: Option<usize> },
}

/// A scored candidate enters the ranking of the select pass when its
/// score is not negative, and, on a pass restricted to far rooms, when it
/// lies at least the ring separation away.
pub fn ranked_for_select(score_nonnegative: bool, distance: u32, far_only: bool, ring_separation_hops: u32) -> (r: bool)
    ensures
        r == (score_nonnegative && (!far_only || distance >= ring_separation_hops)),
{
    score_nonnegative && (!far_only || distance >= ring_separation_hops)
}

/// Candidate `x` ranks ahead of candidate `y`: by quantized score, higher
/// first, then by room in reading order, then (equal keys) by input order.
pub open spec fn claim_ahead(keys: Seq<(i64, RoomName)>, x: int, y: int) -> bool {
    ||| keys[x].0 > keys[y].0
    ||| (keys[x].0 == keys[y].0 && room_before(keys[x].1, keys[y].1))
    ||| (keys[x].0 == keys[y].0 && keys[x].1 == keys[y].1 && x < y)
}

proof fn lemma_claim_ahead_total(keys: Seq<(i64, RoomName)>, x: int, y: int)
    requires
        x != y,
    ensures
        claim_ahead(keys, x, y) || claim_ahead(keys, y, x),
{
    if keys[x].1 != keys[y].1 {
        lemma_room_order_total(keys[x].1, keys[y].1);
    }
}

/// The rank order of the select pass over candidates keyed by (quantized
/// score, room): indices, best first — score descending, then room in
/// reading order; candidates with equal keys keep their input order.
pub fn rank_claim_candidates(keys: &[(i64, RoomName)]) -> (order: Vec<usize>)
    ensures
        order@.len() == keys@.len(),
        forall|a: int| 0 <= a < order@.len() ==> (#[trigger] order@[a]) < keys@.len(),
        forall|x: usize| x < keys@.len() ==> #[trigger] order@.contains(x),
        forall|a: int, b: int|
            0 <= a < b < order@.len() ==> claim_ahead(keys@, #[trigger] order@[a] as int, #[trigger] order@[b] as int),
{
    let mut order: Vec<usize> = Vec::new();
    let mut i: usize = 0;
    while i < keys.len()
        invariant
            0 <= i <= keys@.len(),
            order@.len() == i,
            forall|a: int| 0 <= a < order@.len() ==> (#[trigger] order@[a]) < i,
            forall|x: usize| x < i ==> #[trigger] order@.contains(x),
            forall|a: int, b: int|
                0 <= a < b < order@.len() ==> claim_ahead(keys@, #[trigger] order@[a] as int, #[trigger] order@[b] as int),
        decreases keys@.len() - i,
    {
        let (q, room) = keys[i];
        let mut p: usize = 0;
        while p < order.len()
            invariant
                0 <= p <= order@.len(),
                order@.len() == i,
                i < keys@.len(),
                (q, room) == keys@[i as int],
                forall|a: int| 0 <= a < order@.len() ==> (#[trigger] order@[a]) < i,
                forall|a: int| 0 <= a < p ==> !claim_ahead(keys@, i as int, #[trigger] order@[a] as int),
            ensures
                0 <= p <= order@.len(),
                forall|a: int| 0 <= a < p ==> !claim_ahead(keys@, i as int, #[trigger] order@[a] as int),
                p < order@.len() ==> claim_ahead(keys@, i as int, order@[p as int] as int),
            decreases order@.len() - p,
        {
            let (qo, ro) = keys[order[p]];
            let ahead = q > qo || (q == qo && room_name_lt(room, ro));
            assert(ahead == claim_ahead(keys@, i as int, order@[p as int] as int));
            if ahead {
                break;
            }
            p += 1;
        }
        let ghost before = order@;
        proof {
            assert forall|a: int| 0 <= a < p implies claim_ahead(keys@, #[trigger] before[a] as int, i as int) by {
                lemma_claim_ahead_total(keys@, before[a] as int, i as int);
            }
            if p < before.len() {
                assert(claim_ahead(keys@, i as int, before[p as int] as int));
                assert forall|a: int| p <= a < before.len() implies claim_ahead(keys@, i as int, #[trigger] before[a] as int) by {
                    if a > p {
                        assert(claim_ahead(keys@, before[p as int] as int, before[a] as int));
                    }
                }
            }
        }
        order.insert(p, i);
        proof {
            assert forall|a: int| 0 <= a < order@.len() implies (#[trigger] order@[a]) < i + 1 by {
                if a < p {
                    assert(order@[a] == before[a]);
                } else if a > p {
                    assert(order@[a] == before[a - 1]);
                }
            }
            assert forall|x: usize| x < i + 1 implies #[trigger] order@.contains(x) by {
                if x == i {
                    assert(order@[p as int] == i);
                } else {
                    assert(before.contains(x));
                    let a = choose|a: int| 0 <= a < before.len() && before[a] == x;
                    if a < p {
                        assert(order@[a] == x);
                    } else {
                        assert(order@[a + 1] == x);
                    }
                }
            }
            assert forall|a: int, b: int| 0 <= a < b < order@.len() implies claim_ahead(
                keys@,
                #[trigger] order@[a] as int,
                #[trigger] order@[b] as int,
            ) by {
                let oa = if a < p { before[a] } else if a == p { i } else { before[a - 1] };
                let ob = if b < p { before[b] } else if b == p { i } else { before[b - 1] };
                assert(order@[a] == oa);
                assert(order@[b] == ob);
                if a != p && b != p {
                    let a0 = if a < p { a } else { a - 1 };
                    let b0 = if b < p { b } else { b - 1 };
                    assert(before[a0] == oa && before[b0] == ob && a0 < b0);
                }
            }
        }
        i += 1;
    }
    order
}

/// A home may serve a claim: not taken, among the search's homes when the
/// pass is restricted to them, able to afford a claimer, and within claim
/// reach.
pub open spec fn home_eligible(home: ClaimHome, fit: HomeFit, used: bool, restrict: bool) -> bool {
    !used && (!restrict || fit.search_home) && home.energy_capacity >= CLAIMER_COST && fit.route_ok
}

/// The first eligible home among positions below `n`, other than
/// `exclude`, in room order then position; `-1` when there is none.
pub open spec fn best_home(
    homes: Seq<ClaimHome>,
    fits: Seq<HomeFit>,
    used: Seq<bool>,
    restrict: bool,
    exclude: int,
    n: int,
) -> int
    decreases n,
{
    if n <= 0 {
        -1
    } else {
        let m = best_home(homes, fits, used, restrict, exclude, n - 1);
        let i = n - 1;
        if !(i != exclude && home_eligible(homes[i], fits[i], used[i], restrict)) {
            m
        } else if m < 0 || room_before(homes[i].room, homes[m].room) {
            i
        } else {
            m
        }
    }
}

proof fn lemma_best_home(
    homes: Seq<ClaimHome>,
    fits: Seq<HomeFit>,
    used: Seq<bool>,
    restrict: bool,
    exclude: int,
    n: int,
)
    requires
        0 <= n,
    ensures
        ({
            let r = best_home(homes, fits, used, restrict, exclude, n);
            &&& -1 <= r < n
            &&& r >= 0 ==> r != exclude && home_eligible(homes[r], fits[r], used[r], restrict)
            &&& r < 0 ==> forall|i: int|
                0 <= i < n && i != exclude ==> !home_eligible(#[trigger] homes[i], fits[i], used[i], restrict)
        }),
    decreases n,
{
    if n > 0 {
        lemma_best_home(homes, fits, used, restrict, exclude, n - 1);
        let m = best_home(homes, fits, used, restrict, exclude, n - 1);
        let i = n - 1;
        let r = best_home(homes, fits, used, restrict, exclude, n);
        if r < 0 {
            assert(m < 0);
            assert(!(i != exclude && home_eligible(homes[i], fits[i], used[i], restrict)));
            assert forall|j: int| 0 <= j < n && j != exclude implies !home_eligible(#[trigger] homes[j], fits[j], used[j], restrict) by {
                if j < i {
                } else {
                    assert(j == i);
                }
            }
        }
    }
}

/// The homes a claim takes: the first two eligible homes in room order,
/// among the search's homes if any of those is eligible, else among all.
/// `(-1, _)` when no home is eligible; the second is `-1` when only one is.
pub open spec fn pick_homes(homes: Seq<ClaimHome>, fits: Seq<HomeFit>, used: Seq<bool>) -> (int, int) {
    let restrict = best_home(homes, fits, used, true, -1, homes.len() as int) >= 0;
    let first = best_home(homes, fits, used, restrict, -1, homes.len() as int);
    let second = if first >= 0 {
        best_home(homes, fits, used, restrict, first, homes.len() as int)
    } else {
        -1
    };
    (first, second)
}

/// The state of the select pass.
pub struct SelectState {
    pub outcomes: Seq<ClaimSelect>,
    /// Which homes are taken.
    pub used: Seq<bool>,
    /// Missions created so far.
    pub created: nat,
    /// The pass has stopped.
    pub stopped: bool,
}

/// One candidate of the select pass.
pub open spec fn select_step(
    s: SelectState,
    c: ClaimCandidate,
    homes: Seq<ClaimHome>,
    fits: Seq<HomeFit>,
    max_new: nat,
) -> SelectState {
    if s.created >= max_new || (s.created > 0 && !c.within_score_delta) {
        SelectState { stopped: true, ..s }
    } else if !c.may_claim_below_ring || !c.mapped {
        SelectState { outcomes: s.outcomes.push(ClaimSelect::Skip), ..s }
    } else if c.plan_valid != Some(true) {
        SelectState { outcomes: s.outcomes.push(ClaimSelect::RequestPlan), ..s }
    } else if !c.safe || !c.has_room_data {
        SelectState { outcomes: s.outcomes.push(ClaimSelect::Skip), ..s }
    } else if c.has_claim_mission {
        SelectState { outcomes: s.outcomes.push(ClaimSelect::AlreadyClaimed), ..s }
    } else {
        let (first, second) = pick_homes(homes, fits, s.used);
        if first < 0 {
            SelectState { outcomes: s.outcomes.push(ClaimSelect::NoHome), ..s }
        } else {
            SelectState {
                outcomes: s.outcomes.push(
                    ClaimSelect::Commit {
                        first: first as usize,
                        second: if second >= 0 {
                            Some(second as usize)
                        } else {
                            None
                        },
                    },
                ),
                used: if second >= 0 {
                    s.used.update(first, true).update(second, true)
                } else {
                    s.used.update(first, true)
                },
                created: s.created + 1,
                stopped: false,
            }
        }
    }
}

/// The select pass after the first `n` candidates (`fits[c][h]` relates
/// candidate `c` to home `h`; `used` are the homes already committed to
/// running claims).
pub open spec fn select_state(
    candidates: Seq<ClaimCandidate>,
    homes: Seq<ClaimHome>,
    fits: Seq<Seq<HomeFit>>,
    used: Seq<bool>,
    max_new: nat,
    n: int,
) -> SelectState
    decreases n,
{
    if n <= 0 {
        SelectState { outcomes: Seq::empty(), used, created: 0, stopped: false }
    } else {
        let s = select_state(candidates, homes, fits, used, max_new, n - 1);
        if s.stopped {
            s
        } else {
            select_step(s, candidates[n - 1], homes, fits[n - 1], max_new)
        }
    }
}

/// The fits' views.
pub open spec fn fit_views(fits: Seq<Vec<HomeFit>>) -> Seq<Seq<HomeFit>> {
    fits.map_values(|v: Vec<HomeFit>| v@)
}

proof fn lemma_stopped_stays(
    candidates: Seq<ClaimCandidate>,
    homes: Seq<ClaimHome>,
    fits: Seq<Seq<HomeFit>>,
    used: Seq<bool>,
    max_new: nat,
    n: int,
    m: int,
)
    requires
        0 <= n <= m,
        select_state(candidates, homes, fits, used, max_new, n).stopped,
    ensures
        select_state(candidates, homes, fits, used, max_new, m) == select_state(
            candidates,
            homes,
            fits,
            used,
            max_new,
            n,
        ),
    decreases m - n,
{
    if m > n {
        lemma_stopped_stays(candidates, homes, fits, used, max_new, n, m - 1);
    }
}

/// The first eligible home other than `exclude` (see [`best_home`]).
fn best_home_exec(homes: &[ClaimHome], fits: &Vec<HomeFit>, used: &Vec<bool>, restrict: bool, exclude: Option<usize>) -> (r:
    Option<usize>)
    requires
        fits@.len() == homes@.len(),
        used@.len() == homes@.len(),
    ensures
        ({
            let e: int = match exclude {
                Some(x) => x as int,
                None => -1,
            };
            let b = best_home(homes@, fits@, used@, restrict, e, homes@.len() as int);
            match r {
                Some(i) => i as int == b,
                None => b < 0,
            }
        }),
{
    let ghost e: int = match exclude {
        Some(x) => x as int,
        None => -1,
    };
    let mut best: Option<usize> = None;
    let mut i: usize = 0;
    while i < homes.len()
        invariant
            fits@.len() == homes@.len(),
            used@.len() == homes@.len(),
            0 <= i <= homes@.len(),
            e == match exclude {
                Some(x) => x as int,
                None => -1,
            },
            match best {
                Some(b) => b as int == best_home(homes@, fits@, used@, restrict, e, i as int),
                None => best_home(homes@, fits@, used@, restrict, e, i as int) < 0,
            },
        decreases homes@.len() - i,
    {
        proof {
            lemma_best_home(homes@, fits@, used@, restrict, e, i as int);
        }
        let h = homes[i];
        let f = fits[i];
        let excluded = match exclude {
            Some(x) => x == i,
            None => false,
        };
        let eligible = !excluded && !used[i] && (!restrict || f.search_home) && h.energy_capacity >= CLAIMER_COST
            && f.route_ok;
        if eligible {
            let better = match best {
                None => true,
                Some(b) => room_name_lt(h.room, homes[b].room),
            };
            if better {
                best = Some(i);
            }
        }
        i += 1;
    }
    best
}

/// The select pass over the ranked `candidates`: each is passed over,
/// sent for a plan, found already claimed, found without a home, or
/// committed to a new claim mission with up to
/// [`crate::claim::HOME_CONSUMPTION_CAP`]
/// homes (see [`select_step`]). At most `max_new` missions are created.
/// Returns the outcome of each candidate the pass reached, in order.
pub fn select_claims(
    candidates: &[ClaimCandidate],
    homes: &[ClaimHome],
    fits: &[Vec<HomeFit>],
    used: &[bool],
    max_new: u32,
) -> (out: Vec<ClaimSelect>)
    requires
        fits@.len() == candidates@.len(),
        forall|c: int| 0 <= c < fits@.len() ==> (#[trigger] fits@[c])@.len() == homes@.len(),
        used@.len() == homes@.len(),
    ensures
        out@ == select_state(candidates@, homes@, fit_views(fits@), used@, max_new as nat, candidates@.len() as int).outcomes,
{
    let ghost fv = fit_views(fits@);
    let mut taken: Vec<bool> = Vec::new();
    let mut k: usize = 0;
    while k < used.len()
        invariant
            0 <= k <= used@.len(),
            taken@ == used@.take(k as int),
        decreases used@.len() - k,
    {
        taken.push(used[k]);
        assert(used@.take(k as int + 1) == used@.take(k as int).push(used@[k as int]));
        k += 1;
    }
    assert(used@.take(used@.len() as int) == used@);
    let mut out: Vec<ClaimSelect> = Vec::new();
    let mut created: u32 = 0;
    let mut i: usize = 0;
    while i < candidates.len()
        invariant_except_break
            ({
                let s = select_state(candidates@, homes@, fv, used@, max_new as nat, i as int);
                &&& !s.stopped
                &&& out@ == s.outcomes
                &&& taken@ == s.used
                &&& created as nat == s.created
            }),
        invariant
            fv == fit_views(fits@),
            fits@.len() == candidates@.len(),
            forall|c: int| 0 <= c < fits@.len() ==> (#[trigger] fits@[c])@.len() == homes@.len(),
            used@.len() == homes@.len(),
            taken@.len() == homes@.len(),
            created <= max_new,
            0 <= i <= candidates@.len(),
        ensures
            out@ == select_state(candidates@, homes@, fv, used@, max_new as nat, candidates@.len() as int).outcomes,
        decreases candidates@.len() - i,
    {
        let ghost s = select_state(candidates@, homes@, fv, used@, max_new as nat, i as int);
        let c = candidates[i];
        assert(fv[i as int] == fits@[i as int]@);
        if created >= max_new || (created > 0 && !c.within_score_delta) {
            proof {
                assert(select_state(candidates@, homes@, fv, used@, max_new as nat, i as int + 1).stopped);
                lemma_stopped_stays(candidates@, homes@, fv, used@, max_new as nat, i as int + 1, candidates@.len() as int);
            }
            break;
        }
        let fit = &fits[i];
        if !c.may_claim_below_ring || !c.mapped {
            out.push(ClaimSelect::Skip);
        } else if !matches!(c.plan_valid, Some(true)) {
            out.push(ClaimSelect::RequestPlan);
        } else if !c.safe || !c.has_room_data {
            out.push(ClaimSelect::Skip);
        } else if c.has_claim_mission {
            out.push(ClaimSelect::AlreadyClaimed);
        } else {
            let restricted = best_home_exec(homes, fit, &taken, true, None);
            let restrict = restricted.is_some();
            let first = best_home_exec(homes, fit, &taken, restrict, None);
            match first {
                None => {
                    out.push(ClaimSelect::NoHome);
                },
                Some(f) => {
                    proof {
                        lemma_best_home(homes@, fit@, taken@, restrict, -1, homes@.len() as int);
                    }
                    let second = best_home_exec(homes, fit, &taken, restrict, Some(f));
                    proof {
                        lemma_best_home(homes@, fit@, taken@, restrict, f as int, homes@.len() as int);
                    }
                    out.push(ClaimSelect::Commit { first: f, second });
                    taken.set(f, true);
                    match second {
                        Some(g) => {
                            taken.set(g, true);
                        },
                        None => {},
                    }
                    created = created + 1;
                },
            }
        }
        i += 1;
    }
    out
}

/// How many missions the outcomes commit.
pub open spec fn commits(outcomes: Seq<ClaimSelect>) -> nat
    decreases outcomes.len(),
{
    if outcomes.len() == 0 {
        0
    } else {
        commits(outcomes.drop_last()) + if outcomes.last() is Commit {
            1nat
        } else {
            0nat
        }
    }
}

/// The homes an outcome takes.
pub open spec fn takes(o: ClaimSelect, h: int) -> bool {
    match o {
        ClaimSelect::Commit { first, second } => first as int == h || (second matches Some(g) && g as int == h),
        _ => false,
    }
}

/// What the pass keeps true: the commits counted, every taken home marked,
/// homes taken before the pass still marked, and no home taken twice.
pub open spec fn select_inv(s: SelectState, used: Seq<bool>, homes_len: int) -> bool {
    &&& s.used.len() == homes_len
    &&& commits(s.outcomes) == s.created
    &&& forall|h: int| 0 <= h < homes_len && used[h] ==> #[trigger] s.used[h]
    &&& forall|k: int, h: int| 0 <= k < s.outcomes.len() && #[trigger] takes(s.outcomes[k], h) ==> 0 <= h < homes_len
        && s.used[h] && !used[h]
    &&& forall|k: int, l: int, h: int|
        0 <= k < l < s.outcomes.len() && #[trigger] takes(s.outcomes[k], h) ==> !#[trigger] takes(s.outcomes[l], h)
    &&& forall|k: int| 0 <= k < s.outcomes.len() ==> match #[trigger] s.outcomes[k] {
        ClaimSelect::Commit { first, second } => second matches Some(g) ==> g != first,
        _ => true,
    }
}

proof fn lemma_select_inv(
    candidates: Seq<ClaimCandidate>,
    homes: Seq<ClaimHome>,
    fits: Seq<Seq<HomeFit>>,
    used: Seq<bool>,
    max_new: nat,
    n: int,
)
    requires
        used.len() == homes.len(),
        homes.len() <= usize::MAX,
        n <= candidates.len(),
        fits.len() == candidates.len(),
        forall|c: int| 0 <= c < fits.len() ==> (#[trigger] fits[c]).len() == homes.len(),
    ensures
        select_inv(select_state(candidates, homes, fits, used, max_new, n), used, homes.len() as int),
        select_state(candidates, homes, fits, used, max_new, n).created <= max_new,
    decreases n,
{
    if n > 0 {
        lemma_select_inv(candidates, homes, fits, used, max_new, n - 1);
        let s = select_state(candidates, homes, fits, used, max_new, n - 1);
        if !s.stopped {
            let c = candidates[n - 1];
            let fit = fits[n - 1];
            let t = select_state(candidates, homes, fits, used, max_new, n);
            assert(t == select_step(s, c, homes, fit, max_new));
            if s.created >= max_new || (s.created > 0 && !c.within_score_delta) {
                assert(t == SelectState { stopped: true, ..s });
            } else if !c.may_claim_below_ring || !c.mapped || c.plan_valid != Some(true) || !c.safe
                || !c.has_room_data || c.has_claim_mission || pick_homes(homes, fit, s.used).0 < 0 {
                let o = t.outcomes.last();
                assert(t.outcomes == s.outcomes.push(o));
                assert(t.used == s.used && t.created == s.created);
                assert(!(o is Commit));
                assert(commits(t.outcomes) == commits(s.outcomes)) by {
                    assert(t.outcomes.drop_last() =~= s.outcomes);
                }
                assert forall|k: int, h: int|
                    0 <= k < t.outcomes.len() && #[trigger] takes(t.outcomes[k], h) implies 0 <= h < homes.len()
                        && t.used[h] && !used[h] by {
                    assert(k < s.outcomes.len());
                    assert(t.outcomes[k] == s.outcomes[k]);
                }
                assert forall|k: int, l: int, h: int|
                    0 <= k < l < t.outcomes.len() && #[trigger] takes(t.outcomes[k], h) implies !#[trigger] takes(
                        t.outcomes[l],
                        h,
                    ) by {
                    assert(t.outcomes[k] == s.outcomes[k]);
                    if l < s.outcomes.len() {
                        assert(t.outcomes[l] == s.outcomes[l]);
                    } else {
                        assert(t.outcomes[l] == o);
                    }
                }
                assert forall|k: int| 0 <= k < t.outcomes.len() implies match #[trigger] t.outcomes[k] {
                    ClaimSelect::Commit { first, second } => second matches Some(g) ==> g != first,
                    _ => true,
                } by {
                    if k < s.outcomes.len() {
                        assert(t.outcomes[k] == s.outcomes[k]);
                    }
                }
            } else {
                let restrict = best_home(homes, fit, s.used, true, -1, homes.len() as int) >= 0;
                let first = best_home(homes, fit, s.used, restrict, -1, homes.len() as int);
                let second = best_home(homes, fit, s.used, restrict, first, homes.len() as int);
                lemma_best_home(homes, fit, s.used, restrict, -1, homes.len() as int);
                lemma_best_home(homes, fit, s.used, restrict, first, homes.len() as int);
                assert(pick_homes(homes, fit, s.used) == (first, second));
                assert(first >= 0);
                let o = ClaimSelect::Commit {
                    first: first as usize,
                    second: if second >= 0 {
                        Some(second as usize)
                    } else {
                        None
                    },
                };
                assert(t.outcomes == s.outcomes.push(o));
                assert(t.used == if second >= 0 {
                    s.used.update(first, true).update(second, true)
                } else {
                    s.used.update(first, true)
                });
                assert(t.created == s.created + 1);
                assert(!s.used[first]);
                assert(second >= 0 ==> !s.used[second] && second != first);
                assert(!used[first]);
                assert(second >= 0 ==> !used[second]);
                assert(commits(t.outcomes) == commits(s.outcomes) + 1) by {
                    assert(t.outcomes.drop_last() =~= s.outcomes);
                }
                assert forall|h: int| 0 <= h < homes.len() && used[h] implies #[trigger] t.used[h] by {
                    assert(s.used[h]);
                }
                assert forall|k: int, h: int|
                    0 <= k < t.outcomes.len() && #[trigger] takes(t.outcomes[k], h) implies 0 <= h < homes.len()
                        && t.used[h] && !used[h] by {
                    if k < s.outcomes.len() {
                        assert(t.outcomes[k] == s.outcomes[k]);
                        assert(s.used[h]);
                    } else {
                        assert(t.outcomes[k] == o);
                    }
                }
                assert forall|k: int, l: int, h: int|
                    0 <= k < l < t.outcomes.len() && #[trigger] takes(t.outcomes[k], h) implies !#[trigger] takes(
                        t.outcomes[l],
                        h,
                    ) by {
                    assert(t.outcomes[k] == s.outcomes[k]);
                    if l < s.outcomes.len() {
                        assert(t.outcomes[l] == s.outcomes[l]);
                    } else {
                        assert(t.outcomes[l] == o);
                        assert(s.used[h]);
                    }
                }
                assert forall|k: int| 0 <= k < t.outcomes.len() implies match #[trigger] t.outcomes[k] {
                    ClaimSelect::Commit { first, second } => second matches Some(g) ==> g != first,
                    _ => true,
                } by {
                    if k < s.outcomes.len() {
                        assert(t.outcomes[k] == s.outcomes[k]);
                    }
                }
            }
        }
    }
}

/// The select pass creates at most `max_new` missions; no home serves two
/// claims of the pass, none that a running claim already uses serves a new
/// one, and each claim's two homes differ.
pub proof fn lemma_claims_respect_budget_and_homes(
    candidates: Seq<ClaimCandidate>,
    homes: Seq<ClaimHome>,
    fits: Seq<Seq<HomeFit>>,
    used: Seq<bool>,
    max_new: nat,
)
    requires
        used.len() == homes.len(),
        homes.len() <= usize::MAX,
        fits.len() == candidates.len(),
        forall|c: int| 0 <= c < fits.len() ==> (#[trigger] fits[c]).len() == homes.len(),
    ensures
        ({
            let out = select_state(candidates, homes, fits, used, max_new, candidates.len() as int).outcomes;
            &&& commits(out) <= max_new
            &&& forall|k: int, h: int| 0 <= k < out.len() && #[trigger] takes(out[k], h) ==> 0 <= h < homes.len() && !used[h]
            &&& forall|k: int, l: int, h: int|
                0 <= k < l < out.len() && #[trigger] takes(out[k], h) ==> !#[trigger] takes(out[l], h)
            &&& forall|k: int| 0 <= k < out.len() ==> match #[trigger] out[k] {
                ClaimSelect::Commit { first, second } => second matches Some(g) ==> g != first,
                _ => true,
            }
        }),
{
    lemma_select_inv(candidates, homes, fits, used, max_new, candidates.len() as int);
}


/// Candidate `i` enters the select pass's ranking (see
/// [`ranked_for_select`]).
pub open spec fn enters_ranking(score_nonnegative: Seq<bool>, distance: Seq<u32>, far_only: bool, ring: u32, i: int) -> bool {
    score_nonnegative[i] && (!far_only || distance[i] >= ring)
}

fn copy_fits(v: &Vec<HomeFit>) -> (out: Vec<HomeFit>)
    ensures
        out@ == v@,
{
    let mut out: Vec<HomeFit> = Vec::new();
    let mut i: usize = 0;
    while i < v.len()
        invariant
            0 <= i <= v@.len(),
            out@ == v@.take(i as int),
        decreases v@.len() - i,
    {
        out.push(v[i]);
        assert(v@.take(i as int + 1) == v@.take(i as int).push(v@[i as int]));
        i += 1;
    }
    assert(v@.take(v@.len() as int) == v@);
    out
}

/// The claim select pass over the cached candidates: those that enter the
/// ranking ([`enters_ranking`]), in rank order ([`claim_ahead`] on their
/// keys of quantized score and room), each with what the select pass
/// ([`select_state`]) did with each, in that order (none for those after
/// the pass stops).
pub fn claim_select_pass(
    keys: &[(i64, RoomName)],
    score_nonnegative: &[bool],
    distance: &[u32],
    far_only: bool,
    ring_separation_hops: u32,
    candidates: &[ClaimCandidate],
    fits: &[Vec<HomeFit>],
    homes: &[ClaimHome],
    used: &[bool],
    max_new: u32,
) -> (r: (Vec<usize>, Vec<ClaimSelect>))
    requires
        keys@.len() == candidates@.len(),
        score_nonnegative@.len() == candidates@.len(),
        distance@.len() == candidates@.len(),
        fits@.len() == candidates@.len(),
        forall|c: int| 0 <= c < fits@.len() ==> (#[trigger] fits@[c])@.len() == homes@.len(),
        used@.len() == homes@.len(),
    ensures
        forall|k: int|
            0 <= k < r.0@.len() ==> (#[trigger] r.0@[k]) < candidates@.len() && enters_ranking(
                score_nonnegative@,
                distance@,
                far_only,
                ring_separation_hops,
                r.0@[k] as int,
            ),
        forall|k: int, l: int|
            0 <= k < l < r.0@.len() ==> claim_ahead(keys@, (#[trigger] r.0@[k]) as int, (#[trigger] r.0@[l]) as int),
        forall|i: int|
            0 <= i < candidates@.len() && enters_ranking(score_nonnegative@, distance@, far_only, ring_separation_hops, i)
                ==> r.0@.contains(i as usize),
        r.1@ == select_state(
            Seq::new(r.0@.len(), |k: int| candidates@[r.0@[k] as int]),
            homes@,
            Seq::new(r.0@.len(), |k: int| fits@[r.0@[k] as int]@),
            used@,
            max_new as nat,
            r.0@.len() as int,
        ).outcomes,
{
    let order = rank_claim_candidates(keys);
    let mut picked: Vec<usize> = Vec::new();
    let mut pc: Vec<ClaimCandidate> = Vec::new();
    let mut pf: Vec<Vec<HomeFit>> = Vec::new();
    let mut a: usize = 0;
    while a < order.len()
        invariant
            0 <= a <= order@.len(),
            order@.len() == keys@.len(),
            keys@.len() == candidates@.len(),
            score_nonnegative@.len() == candidates@.len(),
            distance@.len() == candidates@.len(),
            fits@.len() == candidates@.len(),
            forall|c: int| 0 <= c < fits@.len() ==> (#[trigger] fits@[c])@.len() == homes@.len(),
            forall|b: int| 0 <= b < order@.len() ==> (#[trigger] order@[b]) < keys@.len(),
            forall|b: int, c: int|
                0 <= b < c < order@.len() ==> claim_ahead(keys@, #[trigger] order@[b] as int, #[trigger] order@[c] as int),
            pc@.len() == picked@.len(),
            pf@.len() == picked@.len(),
            forall|k: int|
                0 <= k < picked@.len() ==> (#[trigger] picked@[k]) < candidates@.len() && enters_ranking(
                    score_nonnegative@,
                    distance@,
                    far_only,
                    ring_separation_hops,
                    picked@[k] as int,
                ) && pc@[k] == candidates@[picked@[k] as int] && pf@[k]@ == fits@[picked@[k] as int]@
                    && exists|b: int| 0 <= b < a && order@[b] == picked@[k],
            forall|k: int, l: int|
                0 <= k < l < picked@.len() ==> claim_ahead(keys@, #[trigger] picked@[k] as int, #[trigger] picked@[l] as int),
            forall|k: int, b: int|
                0 <= k < picked@.len() && a <= b < order@.len() ==> claim_ahead(
                    keys@,
                    #[trigger] picked@[k] as int,
                    #[trigger] order@[b] as int,
                ),
            forall|b: int|
                0 <= b < a && enters_ranking(
                    score_nonnegative@,
                    distance@,
                    far_only,
                    ring_separation_hops,
                    #[trigger] order@[b] as int,
                ) ==> picked@.contains(order@[b]),
        decreases order@.len() - a,
    {
        let i = order[a];
        let ghost before = picked@;
        if ranked_for_select(score_nonnegative[i], distance[i], far_only, ring_separation_hops) {
            picked.push(i);
            pc.push(candidates[i]);
            pf.push(copy_fits(&fits[i]));
            proof {
                assert forall|k: int, l: int| 0 <= k < l < picked@.len() implies claim_ahead(
                    keys@,
                    #[trigger] picked@[k] as int,
                    #[trigger] picked@[l] as int,
                ) by {
                    if l == picked@.len() - 1 {
                        assert(picked@[k] == before[k]);
                    } else {
                        assert(picked@[k] == before[k] && picked@[l] == before[l]);
                    }
                }
                assert forall|k: int| #![trigger picked@[k]] 0 <= k < picked@.len() implies exists|b: int|
                    0 <= b < a + 1 && order@[b] == picked@[k] by {
                    if k < before.len() {
                        assert(picked@[k] == before[k]);
                        let b = choose|b: int| 0 <= b < a && order@[b] == before[k];
                    } else {
                        assert(order@[a as int] == picked@[k]);
                    }
                }
                assert forall|b: int|
                    0 <= b < a + 1 && enters_ranking(
                        score_nonnegative@,
                        distance@,
                        far_only,
                        ring_separation_hops,
                        #[trigger] order@[b] as int,
                    ) implies picked@.contains(order@[b]) by {
                    if b < a {
                        let k = choose|k: int| 0 <= k < before.len() && before[k] == order@[b];
                        assert(picked@[k] == before[k]);
                    } else {
                        assert(picked@[picked@.len() - 1] == order@[b]);
                    }
                }
            }
        } else {
            proof {
                assert forall|k: int| #![trigger picked@[k]] 0 <= k < picked@.len() implies exists|b: int|
                    0 <= b < a + 1 && order@[b] == picked@[k] by {
                    let b = choose|b: int| 0 <= b < a && order@[b] == picked@[k];
                }
            }
        }
        a += 1;
    }
    proof {
        assert(fit_views(pf@) =~= Seq::new(picked@.len(), |k: int| fits@[picked@[k] as int]@));
        assert(pc@ =~= Seq::new(picked@.len(), |k: int| candidates@[picked@[k] as int]));
        assert forall|c: int| 0 <= c < pf@.len() implies (#[trigger] pf@[c])@.len() == homes@.len() by {
            assert(pf@[c]@ == fits@[picked@[c] as int]@);
        }
        assert forall|i: int|
            0 <= i < candidates@.len() && enters_ranking(score_nonnegative@, distance@, far_only, ring_separation_hops, i)
                implies picked@.contains(i as usize) by {
            assert(order@.contains(i as usize));
            let b = choose|b: int| 0 <= b < order@.len() && order@[b] == i as usize;
        }
    }
    let outcomes = select_claims(&pc, homes, &pf, used, max_new);
    proof {
        assert(Seq::new(picked@.len(), |t: int| candidates@[picked@[t] as int]) =~= pc@);
        assert(Seq::new(picked@.len(), |t: int| fits@[picked@[t] as int]@) =~= fit_views(pf@));
    }
    (picked, outcomes)
}

} // verus!
