use ibex::operations::missing_operations;
use ibex::operations::OperationKind::{Attack, Claim, Colony, MiningOutpost, Scout, War};

#[test]
fn every_standing_operation_is_created_once() {
    assert_eq!(missing_operations(&[]), vec![MiningOutpost, Claim, Colony, War, Scout]);
    assert_eq!(missing_operations(&[Attack, Claim, Attack, Scout]), vec![MiningOutpost, Colony, War]);
    assert!(missing_operations(&[War, Scout, Colony, Claim, MiningOutpost]).is_empty());
    let mut kinds = vec![Attack, Colony];
    kinds.extend(missing_operations(&kinds));
    assert!(missing_operations(&kinds).is_empty());
}
