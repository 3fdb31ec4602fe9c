use ibex::claimselect::{claim_select_pass, rank_claim_candidates, select_claims, ClaimCandidate, ClaimHome, ClaimSelect, HomeFit};
use ibex::geometry::RoomName;

fn room(name: &str) -> RoomName {
    RoomName::from_packed(screeps::RoomName::new(name).unwrap().packed_repr())
}

fn ready() -> ClaimCandidate {
    ClaimCandidate {
        within_score_delta: true,
        may_claim_below_ring: true,
        mapped: true,
        plan_valid: Some(true),
        safe: true,
        has_room_data: true,
        has_claim_mission: false,
    }
}

fn homes() -> Vec<ClaimHome> {
    vec![
        ClaimHome { room: room("E2N1"), energy_capacity: 800 },
        ClaimHome { room: room("E1N1"), energy_capacity: 800 },
        ClaimHome { room: room("E3N1"), energy_capacity: 500 },
        ClaimHome { room: room("E1N2"), energy_capacity: 800 },
    ]
}

fn fits(search: [bool; 4], route: [bool; 4]) -> Vec<HomeFit> {
    (0..4).map(|h| HomeFit { search_home: search[h], route_ok: route[h] }).collect()
}

#[test]
fn claims_take_two_search_homes_then_fall_back_to_any_home() {
    let mut needs_plan = ready();
    needs_plan.plan_valid = None;
    let candidates = vec![ready(), needs_plan, ready(), ready()];
    let all = [true; 4];
    let f = vec![
        fits([true, true, false, false], all),
        fits(all, all),
        fits([true, false, false, false], all),
        fits(all, all),
    ];
    let out = select_claims(&candidates, &homes(), &f, &[false; 4], 2);
    assert_eq!(
        out,
        vec![
            ClaimSelect::Commit { first: 1, second: Some(0) },
            ClaimSelect::RequestPlan,
            ClaimSelect::Commit { first: 3, second: None },
        ],
        "the budget of two stops the pass before the fourth candidate"
    );
}

#[test]
fn the_pass_stops_below_the_score_delta_and_skips_unready_candidates() {
    let mut below_ring = ready();
    below_ring.may_claim_below_ring = false;
    let mut claimed = ready();
    claimed.has_claim_mission = true;
    let mut unsafe_now = ready();
    unsafe_now.safe = false;
    let mut failed_plan = ready();
    failed_plan.plan_valid = Some(false);
    let mut far_below = ready();
    far_below.within_score_delta = false;
    let candidates = vec![below_ring, claimed, unsafe_now, failed_plan, ready(), far_below, ready()];
    let all = [true; 4];
    let f: Vec<Vec<HomeFit>> = (0..candidates.len()).map(|_| fits(all, all)).collect();
    let out = select_claims(&candidates, &homes(), &f, &[false; 4], 10);
    assert_eq!(
        out,
        vec![
            ClaimSelect::Skip,
            ClaimSelect::AlreadyClaimed,
            ClaimSelect::Skip,
            ClaimSelect::RequestPlan,
            ClaimSelect::Commit { first: 3, second: Some(1) },
        ]
    );
}

#[test]
fn homes_in_use_or_out_of_reach_serve_no_claim() {
    let candidates = vec![ready(), ready()];
    let f = vec![fits([true; 4], [true, false, true, true]), fits([true; 4], [true; 4])];
    // H3 is already committed; H1 is out of reach for the first; H2 cannot afford a claimer.
    let out = select_claims(&candidates, &homes(), &f, &[false, false, false, true], 5);
    assert_eq!(out, vec![ClaimSelect::Commit { first: 0, second: None }, ClaimSelect::Commit { first: 1, second: None }]);
    let out = select_claims(&[ready()], &homes(), &[fits([true; 4], [false; 4])], &[false; 4], 5);
    assert_eq!(out, vec![ClaimSelect::NoHome]);
    assert!(select_claims(&[ready()], &homes(), &[fits([true; 4], [true; 4])], &[false; 4], 0).is_empty());
}

#[test]
fn claim_ranking_is_score_descending_then_room_order_then_input_order() {
    let names = ["W5N5", "W3N2", "W5N5", "E1S1", "W4N5"];
    let scores = [5i64, 7, 5, 5, 2];
    let keys: Vec<(i64, RoomName)> = names.iter().zip(scores.iter()).map(|(n, s)| (*s, room(n))).collect();
    let order = rank_claim_candidates(&keys);
    // The reference order: the game's room order within equal quantized
    // scores, higher score first, ties in input order (a stable sort).
    let mut expected: Vec<usize> = (0..names.len()).collect();
    expected.sort_by(|&a, &b| {
        scores[b]
            .cmp(&scores[a])
            .then(screeps::RoomName::new(names[a]).unwrap().cmp(&screeps::RoomName::new(names[b]).unwrap()))
    });
    assert_eq!(order, expected);
    assert_eq!(order[0], 1);
    assert_eq!(order[4], 4);
    // The two W5N5 entries keep their input order.
    let p0 = order.iter().position(|&i| i == 0).unwrap();
    let p2 = order.iter().position(|&i| i == 2).unwrap();
    assert!(p0 < p2);
    assert!(rank_claim_candidates(&[]).is_empty());
}

#[test]
fn the_claim_pass_ranks_the_entering_candidates_before_selecting() {
    let mut needs_plan = ready();
    needs_plan.plan_valid = None;
    let all = [true; 4];
    let candidates = vec![ready(), needs_plan, ready(), ready(), ready(), ready()];
    let f = vec![
        fits([true, false, false, false], all),
        fits(all, all),
        fits(all, all),
        fits([true, true, false, false], all),
        fits(all, all),
        fits(all, all),
    ];
    let keys = vec![
        (5i64, room("W5N5")),
        (7, room("W6N6")),
        (20, room("W7N7")),
        (9, room("W8N8")),
        (3, room("W9N9")),
        (30, room("W1N1")),
    ];
    // Index 2 scored negative; index 5 is inside the ring on a far-only pass.
    let nonneg = [true, true, false, true, true, true];
    let distance = [4u32, 4, 4, 4, 4, 1];
    let (ranked, outcomes) =
        claim_select_pass(&keys, &nonneg, &distance, true, 3, &candidates, &f, &homes(), &[false; 4], 2);
    assert_eq!(ranked, vec![3, 1, 0, 4]);
    assert_eq!(
        outcomes,
        vec![
            ClaimSelect::Commit { first: 1, second: Some(0) },
            ClaimSelect::RequestPlan,
            ClaimSelect::Commit { first: 3, second: None },
        ]
    );
    // Without the far-only restriction the near room enters, and ranks first.
    let (ranked, _) =
        claim_select_pass(&keys, &nonneg, &distance, false, 3, &candidates, &f, &homes(), &[false; 4], 2);
    assert_eq!(ranked, vec![5, 3, 1, 0, 4]);
}
