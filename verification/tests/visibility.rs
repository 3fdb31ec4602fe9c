use ibex::geometry::RoomName;
use ibex::visibility::{
    assign_observers, flags_label, is_scout_flag, scout_flag_request, observe_order, observer_rotation_take, VisibilityEntry, VisibilityQueue, VisibilityRequest, DEFAULT_VISIBILITY_TTL,
    UNREACHABLE_BACKOFF_BASE, UNREACHABLE_BACKOFF_MAX, VISIBILITY_ALL, VISIBILITY_OBSERVE, VISIBILITY_SCOUT,
};

/// Order key of a non-negative priority.
fn key(priority: f32) -> u32 {
    priority.to_bits()
}

const VISIBILITY_PRIORITY_HIGH: f32 = 75.0;
const VISIBILITY_PRIORITY_MEDIUM: f32 = 50.0;
const VISIBILITY_PRIORITY_LOW: f32 = 25.0;

fn room(name: &str) -> RoomName {
    RoomName::from_packed(screeps::RoomName::new(name).unwrap().packed_repr())
}

#[test]
fn mark_unreachable_sets_exponential_backoff() {
    let room = room("E5N5");
    let mut q = VisibilityQueue::new();

    q.mark_unreachable(room, 1000);
    assert!(q.is_unreachable_now(room, 1000));
    assert!(q.is_unreachable_now(room, 1000 + UNREACHABLE_BACKOFF_BASE - 1));
    assert!(!q.is_unreachable_now(room, 1000 + UNREACHABLE_BACKOFF_BASE));

    q.mark_unreachable(room, 5000);
    assert!(q.is_unreachable_now(room, 5000 + UNREACHABLE_BACKOFF_BASE));
    assert!(q.is_unreachable_now(room, 5000 + 2 * UNREACHABLE_BACKOFF_BASE - 1));
    assert!(!q.is_unreachable_now(room, 5000 + 2 * UNREACHABLE_BACKOFF_BASE));
}

#[test]
fn unreachable_backoff_is_capped() {
    let room = room("E5N5");
    let mut q = VisibilityQueue::new();
    for _ in 0..20 {
        q.mark_unreachable(room, 0);
    }
    assert!(q.is_unreachable_now(room, UNREACHABLE_BACKOFF_MAX - 1));
    assert!(!q.is_unreachable_now(room, UNREACHABLE_BACKOFF_MAX));
}

#[test]
fn clear_unreachable_lifts_suppression() {
    let room = room("E5N5");
    let mut q = VisibilityQueue::new();
    q.mark_unreachable(room, 0);
    assert!(q.is_unreachable_now(room, 0));
    q.clear_unreachable(room);
    assert!(!q.is_unreachable_now(room, 0));
}

#[test]
fn backoff_doubles_per_attempt_and_rooms_are_independent() {
    let (a, b) = (room("W1N1"), room("W2N1"));
    let mut q = VisibilityQueue::new();
    q.mark_unreachable(b, 0);
    for (attempt, expected) in [(1u32, 2_000u32), (2, 4_000), (3, 8_000), (4, 16_000), (5, 20_000), (6, 20_000)] {
        q.mark_unreachable(a, 100);
        let rec = q.unreachable.iter().find(|u| u.room_name == a).unwrap();
        assert_eq!(rec.attempts, attempt);
        assert_eq!(rec.retry_after, 100 + expected);
    }
    assert_eq!(q.unreachable.len(), 2);
    q.clear_unreachable(a);
    assert_eq!(q.unreachable.len(), 1);
    assert!(q.is_unreachable_now(b, 1_999));
    // Saturating retry tick near the end of time.
    q.mark_unreachable(a, u32::MAX - 10);
    assert!(q.is_unreachable_now(a, u32::MAX - 1));
}

#[test]
fn observers_go_to_the_nearest_home_with_one_left() {
    let near = room("W5N5");
    let far = room("W12N5");
    let homes = [(far, 1), (near, 1)];
    // W6N5 is 1 hop from W5N5 and 6 from W12N5; W7N5 is 2 and 5 hops.
    let picks = assign_observers(&[room("W6N5"), room("W7N5"), room("W8N5")], &homes);
    assert_eq!(picks, vec![Some(1), Some(0), None], "each observer serves once");
}

#[test]
fn observers_respect_their_range_and_break_ties_by_home_order() {
    let homes = [(room("W5N5"), 2), (room("W5N7"), 2)];
    // W5N6 is one hop from both homes: the first home wins.
    assert_eq!(assign_observers(&[room("W5N6")], &homes), vec![Some(0)]);
    // Eleven hops is out of any observer's range.
    assert_eq!(assign_observers(&[room("W16N5")], &homes), vec![None]);
    assert_eq!(assign_observers(&[room("W6N6")], &[(room("W5N5"), 0)]), vec![None]);
}

#[test]
fn observer_rotation_keeps_every_window_fresh() {
    // Entries in value order with their freshness windows: the rotation
    // grows while every taken window covers its length.
    assert_eq!(observer_rotation_take(&[500, 100, 400]), 3);
    assert_eq!(observer_rotation_take(&[3, 3, 3, 3]), 3);
    assert_eq!(observer_rotation_take(&[100, 1, 100]), 1, "a per-tick entry cannot share");
    assert_eq!(observer_rotation_take(&[0]), 1, "a window of 0 still takes one observer");
    assert_eq!(observer_rotation_take(&[]), 0);
}

#[test]
fn upsert_min_merges_want_fresh_within_and_max_merges_priority() {
    let room = room("E1N1");
    let mut q = VisibilityQueue::new();

    // Existing entry: claim-candidate style (HIGH, fresh-within 250), expiring at 1100.
    q.request(VisibilityRequest::new(room, key(VISIBILITY_PRIORITY_HIGH), VISIBILITY_ALL).want_fresh_within(250), 1_000);
    // Incoming request: squad-manager style (MEDIUM, fresh-within 1), expiring at 1050.
    q.request(VisibilityRequest::new(room, key(VISIBILITY_PRIORITY_MEDIUM), VISIBILITY_OBSERVE).want_fresh_within(1), 950);

    assert_eq!(q.entries.len(), 1);
    let existing = q.entries[0];
    assert_eq!(existing.want_fresh_within, 1, "strictest freshness (MIN) wins");
    assert_eq!(existing.priority_key, key(VISIBILITY_PRIORITY_HIGH), "priority stays MAX-merged");
    assert_eq!(existing.expires_at, 1_100, "expiry stays MAX-merged");
    assert_eq!(existing.allowed_types, VISIBILITY_ALL);

    // And the reverse order: a lax request never loosens a strict entry.
    q.request(VisibilityRequest::new(room, key(VISIBILITY_PRIORITY_LOW), VISIBILITY_SCOUT), 950);
    assert_eq!(q.entries[0].want_fresh_within, 1, "a lax re-assert cannot loosen the target");
}

#[test]
fn visibility_request_defaults_and_declares_freshness() {
    let room = room("E2N2");
    let default_req = VisibilityRequest::new(room, key(VISIBILITY_PRIORITY_LOW), VISIBILITY_SCOUT);
    assert_eq!(default_req.want_fresh_within, DEFAULT_VISIBILITY_TTL);

    let strict = VisibilityRequest::new(room, key(VISIBILITY_PRIORITY_HIGH), VISIBILITY_ALL).want_fresh_within(0);
    assert_eq!(strict.want_fresh_within, 0, "builder declares an imperative force-visit");
}

#[test]
fn opportunistic_entries_are_upgraded_by_a_firm_request() {
    let room = room("E3N3");
    let mut q = VisibilityQueue::new();
    q.request(VisibilityRequest::new_opportunistic(room, key(VISIBILITY_PRIORITY_LOW), VISIBILITY_SCOUT), 10);
    assert!(q.entries[0].opportunistic);
    q.request(VisibilityRequest::new_opportunistic(room, key(VISIBILITY_PRIORITY_LOW), VISIBILITY_SCOUT), 20);
    assert!(q.entries[0].opportunistic, "opportunistic requests keep it opportunistic");
    q.request(VisibilityRequest::new(room, key(VISIBILITY_PRIORITY_LOW), VISIBILITY_SCOUT), 30);
    assert!(!q.entries[0].opportunistic);
    q.request(VisibilityRequest::new_opportunistic(room, key(VISIBILITY_PRIORITY_LOW), VISIBILITY_SCOUT), 40);
    assert!(!q.entries[0].opportunistic, "never downgraded");
    assert_eq!(q.entries[0].expires_at, 140);
}

#[test]
fn entries_expire_after_their_ttl() {
    let a = room("E1N1");
    let b = room("E2N2");
    let mut q = VisibilityQueue::new();
    q.request(VisibilityRequest::new(a, 1, VISIBILITY_ALL), 100);
    q.request(VisibilityRequest::new(b, 1, VISIBILITY_ALL), 150);
    assert!(q.has_entry(a) && q.has_entry(b));
    q.expire(199);
    assert!(q.has_entry(a), "expires_at 200 is still alive at 199");
    q.expire(200);
    assert!(!q.has_entry(a));
    assert!(q.has_entry(b));
    assert_eq!(q.entries.len(), 1);
}

#[test]
fn flag_labels() {
    assert_eq!(flags_label(VISIBILITY_ALL), "O+S");
    assert_eq!(flags_label(VISIBILITY_OBSERVE), "O");
    assert_eq!(flags_label(VISIBILITY_SCOUT), "S");
    assert_eq!(flags_label(0), "-");
}

fn entry(name: &str, priority_key: u32, allowed_types: u8, want_fresh_within: u32) -> VisibilityEntry {
    VisibilityEntry {
        room_name: room(name),
        priority_key,
        allowed_types,
        expires_at: 1_000,
        opportunistic: false,
        want_fresh_within,
    }
}

#[test]
fn observers_serve_stale_entries_by_priority_then_rotation() {
    let entries = vec![
        entry("E1N1", 50, VISIBILITY_ALL, 100),     // 0: stale, medium
        entry("E2N1", 75, VISIBILITY_OBSERVE, 100), // 1: stale, high
        entry("E3N1", 75, VISIBILITY_SCOUT, 100),   // 2: scouts only
        entry("E4N1", 50, VISIBILITY_ALL, 100),     // 3: fresh enough
        entry("E5N1", 50, VISIBILITY_ALL, 100),     // 4: stale, observed long ago
        entry("E1N2", 50, VISIBILITY_ALL, 100),     // 5: stale, same age as 0, later row
    ];
    let ages = vec![500, 500, 500, 100, u32::MAX, 500];
    let last = vec![900, 900, 0, 0, 10, 900];
    let order = observe_order(&entries, &ages, &last);
    // E1N2 lies a row further north than E1N1, so it reads first.
    assert_eq!(order, vec![1, 4, 5, 0]);
}

#[test]
fn observer_ties_fall_back_to_queue_order() {
    let entries = vec![entry("E1N1", 10, VISIBILITY_OBSERVE, 0), entry("E1N1", 10, VISIBILITY_OBSERVE, 0)];
    assert_eq!(observe_order(&entries, &[1, 1], &[5, 5]), vec![0, 1]);
    assert!(observe_order(&entries, &[0, 0], &[5, 5]).is_empty(), "age 0 is fresh within 0");
}

#[test]
fn scout_flags_are_named_scout_in_any_case() {
    assert!(is_scout_flag("scout"));
    assert!(is_scout_flag("Scout-E5N5"));
    assert!(is_scout_flag("SCOUT2"));
    assert!(!is_scout_flag("scou"));
    assert!(!is_scout_flag("my scout"));
    assert!(!is_scout_flag("attack"));
    let r = scout_flag_request(room("E5N5"), 7);
    assert_eq!(r.want_fresh_within, 0);
    assert_eq!(r.allowed_types, VISIBILITY_ALL);
    assert!(!r.opportunistic);
}

#[test]
fn default_records_name_e0n0_and_are_inert() {
    let e = VisibilityEntry::default();
    assert_eq!(e.room_name, room("E0N0"));
    assert_eq!(e.expires_at, 0);
    assert_eq!(e.want_fresh_within, DEFAULT_VISIBILITY_TTL);
    assert_eq!(e.allowed_types, 0);
    let u = ibex::visibility::UnreachableRoom::default();
    assert_eq!(u.room_name, room("E0N0"));
    assert_eq!((u.retry_after, u.attempts), (0, 0));
}
