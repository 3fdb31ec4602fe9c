//! The operation manager: the standing operations the bot always runs, and
//! which of them must be created because none exists.
use vstd::prelude::*;

verus! {

/// The kinds of operation.
#[derive(Clone, Copy, Debug, PartialEq, Eq, Structural)]
pub enum OperationKind {
    MiningOutpost,
    Claim,
    Colony,
    Attack,
    Scout,
    War,
}

/// `k`, unless an operation of that kind already exists.
pub open spec fn if_missing(kinds: Seq<OperationKind>, k: OperationKind) -> Seq<OperationKind> {
    if kinds.contains(k) {
        Seq::empty()
    } else {
        seq![k]
    }
}

/// The standing operations (mining outposts, claim, colony, war, scout)
/// of which no operation exists, in that order. Attacks are not standing.
pub open spec fn spec_missing_operations(kinds: Seq<OperationKind>) -> Seq<OperationKind> {
    if_missing(kinds, OperationKind::MiningOutpost) + if_missing(kinds, OperationKind::Claim) + if_missing(
        kinds,
        OperationKind::Colony,
    ) + if_missing(kinds, OperationKind::War) + if_missing(kinds, OperationKind::Scout)
}

/// The standing operations to create, given the kinds of the existing
/// operations (see [`spec_missing_operations`]).
pub fn missing_operations(kinds: &[OperationKind]) -> (out: Vec<OperationKind>)
    ensures
        out@ == spec_missing_operations(kinds@),
{
    let mut has_mining_outpost = false;
    let mut has_claim = false;
    let mut has_colony = false;
    let mut has_scout = false;
    let mut has_war = false;
    let mut i: usize = 0;
    while i < kinds.len()
        invariant
            0 <= i <= kinds@.len(),
            has_mining_outpost == kinds@.take(i as int).contains(OperationKind::MiningOutpost),
            has_claim == kinds@.take(i as int).contains(OperationKind::Claim),
            has_colony == kinds@.take(i as int).contains(OperationKind::Colony),
            has_scout == kinds@.take(i as int).contains(OperationKind::Scout),
            has_war == kinds@.take(i as int).contains(OperationKind::War),
        decreases kinds@.len() - i,
    {
        let k = kinds[i];
        proof {
            let before = kinds@.take(i as int);
            let after = kinds@.take(i as int + 1);
            assert(after == before.push(k));
            assert forall|x: OperationKind| after.contains(x) <==> (before.contains(x) || x == k) by {
                if after.contains(x) && x != k {
                    let j = choose|j: int| 0 <= j < after.len() && after[j] == x;
                    assert(before[j] == x);
                }
                if before.contains(x) {
                    let j = choose|j: int| 0 <= j < before.len() && before[j] == x;
                    assert(after[j] == x);
                }
                if x == k {
                    assert(after[i as int] == k);
                }
            }
        }
        match k {
            OperationKind::MiningOutpost => has_mining_outpost = true,
            OperationKind::Claim => has_claim = true,
            OperationKind::Colony => has_colony = true,
            OperationKind::Attack => {},
            OperationKind::Scout => has_scout = true,
            OperationKind::War => has_war = true,
        }
        i += 1;
    }
    assert(kinds@.take(kinds@.len() as int) == kinds@);
    let mut out: Vec<OperationKind> = Vec::new();
    if !has_mining_outpost {
        out.push(OperationKind::MiningOutpost);
    }
    let ghost a = out@;
    if !has_claim {
        out.push(OperationKind::Claim);
    }
    let ghost b = out@;
    if !has_colony {
        out.push(OperationKind::Colony);
    }
    let ghost c = out@;
    if !has_war {
        out.push(OperationKind::War);
    }
    let ghost d = out@;
    if !has_scout {
        out.push(OperationKind::Scout);
    }
    proof {
        assert(a == if_missing(kinds@, OperationKind::MiningOutpost));
        assert(b == a + if_missing(kinds@, OperationKind::Claim));
        assert(c == b + if_missing(kinds@, OperationKind::Colony));
        assert(d == c + if_missing(kinds@, OperationKind::War));
        assert(out@ == d + if_missing(kinds@, OperationKind::Scout));
    }
    out
}

/// Creating the missing standing operations leaves none missing.
pub proof fn lemma_creating_missing_completes(kinds: Seq<OperationKind>)
    ensures
        spec_missing_operations(kinds + spec_missing_operations(kinds)).len() == 0,
{
    let m = spec_missing_operations(kinds);
    let all = kinds + m;
    assert forall|k: OperationKind| k != OperationKind::Attack implies all.contains(k) by {
        if kinds.contains(k) {
            let j = choose|j: int| 0 <= j < kinds.len() && kinds[j] == k;
            assert(all[j] == k);
        } else {
            let pre = if_missing(kinds, OperationKind::MiningOutpost);
            let p2 = pre + if_missing(kinds, OperationKind::Claim);
            let p3 = p2 + if_missing(kinds, OperationKind::Colony);
            let p4 = p3 + if_missing(kinds, OperationKind::War);
            let pos: int = match k {
                OperationKind::MiningOutpost => 0,
                OperationKind::Claim => pre.len() as int,
                OperationKind::Colony => p2.len() as int,
                OperationKind::War => p3.len() as int,
                _ => p4.len() as int,
            };
            assert(m[pos] == k);
            assert(all[kinds.len() + pos] == k);
        }
    }
    assert(all.contains(OperationKind::MiningOutpost));
    assert(all.contains(OperationKind::Claim));
    assert(all.contains(OperationKind::Colony));
    assert(all.contains(OperationKind::War));
    assert(all.contains(OperationKind::Scout));
}

} // verus!
