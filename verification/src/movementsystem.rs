//! Wasted-move telemetry: an issued move, observed one tick later, was
//! wasted when the creep neither moved nor was fatigued.
use vstd::prelude::*;
use crate::geometry::Position;

verus! {

/// Wasted ⇔ position unchanged ∧ unfatigued; a creep that died (`None`) is
/// never counted.
pub open spec fn spec_issued_move_wasted(issued_from: Position, observed: Option<(Position, u32)>) -> bool {
    match observed {
        Some((pos, fatigue)) => pos == issued_from && fatigue == 0,
        None => false,
    }
}

/// One issued move, observed one tick later: `observed` is
/// `Some((position, fatigue))` for a live creep, `None` for one that died.
pub fn issued_move_wasted(issued_from: Position, observed: Option<(Position, u32)>) -> (r: bool)
    ensures
        r == spec_issued_move_wasted(issued_from, observed),
{
    match observed {
        Some((pos, fatigue)) => pos == issued_from && fatigue == 0,
        None => false,
    }
}

/// Number of wasted records in a reconciliation set.
pub open spec fn spec_count_wasted(records: Seq<(Position, Option<(Position, u32)>)>) -> nat
    decreases records.len(),
{
    if records.len() == 0 {
        0
    } else {
        spec_count_wasted(records.drop_last()) + if spec_issued_move_wasted(
            records.last().0,
            records.last().1,
        ) {
            1nat
        } else {
            0nat
        }
    }
}

proof fn lemma_count_wasted_bound(records: Seq<(Position, Option<(Position, u32)>)>)
    ensures
        spec_count_wasted(records) <= records.len(),
    decreases records.len(),
{
    if records.len() > 0 {
        lemma_count_wasted_bound(records.drop_last());
    }
}

/// Count the wasted moves of the tick's reconciliation set. Creeps with no
/// issued record never enter it.
pub fn count_wasted_moves(records: &[(Position, Option<(Position, u32)>)]) -> (n: u32)
    requires
        records@.len() <= u32::MAX,
    ensures
        n == spec_count_wasted(records@),
{
    let mut n: u32 = 0;
    let mut i: usize = 0;
    while i < records.len()
        invariant
            0 <= i <= records@.len(),
            records@.len() <= u32::MAX,
            n == spec_count_wasted(records@.take(i as int)),
        decreases records@.len() - i,
    {
        proof {
            assert(records@.take(i as int + 1).drop_last() =~= records@.take(i as int));
            lemma_count_wasted_bound(records@.take(i as int));
        }
        let (from, observed) = records[i];
        if issued_move_wasted(from, observed) {
            n = n + 1;
        }
        i += 1;
    }
    proof {
        assert(records@.take(records@.len() as int) =~= records@);
    }
    n
}

} // verus!
