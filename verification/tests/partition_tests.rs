use coopsched::partition::{partition, Plan, PlanEntry, PartitionFault};
use coopsched::resources::{Capability, Registry};

fn registry_with(ids: &[u32]) -> Registry {
    let mut reg = Registry::new();
    for &id in ids {
        assert!(reg.register(id, Capability::DigitalOutput));
    }
    reg
}

#[test]
fn single_bundle_plan_partitions() {
    // plan = {LED: [pin0]}: partition succeeds with one bundle "LED"
    // containing exactly pin0.
    let reg = registry_with(&[0]);
    let plan = Plan {
        entries: vec![PlanEntry { name: "LED".to_string(), ids: vec![0] }],
    };
    let bundles = partition(reg, &plan).unwrap();
    assert_eq!(bundles.len(), 1);
    assert_eq!(bundles[0].name().as_str(), "LED");
    assert_eq!(bundles[0].len(), 1);
    assert!(bundles[0].contains_id(0));
    assert_eq!(bundles[0].id_at(0), 0);
}

#[test]
fn double_claim_is_rejected() {
    // A plan that claims pin0 in two bundles fails with a duplicate-claim
    // fault; no bundles are produced.
    let reg = registry_with(&[0, 1]);
    let plan = Plan {
        entries: vec![
            PlanEntry { name: "LED".to_string(), ids: vec![0] },
            PlanEntry { name: "Display".to_string(), ids: vec![0, 1] },
        ],
    };
    let fault = partition(reg, &plan).unwrap_err();
    assert_eq!(fault, PartitionFault::DuplicateClaim { id: 0 });
}

#[test]
fn duplicate_inside_one_bundle_is_rejected() {
    let reg = registry_with(&[0, 1]);
    let plan = Plan {
        entries: vec![PlanEntry { name: "LED".to_string(), ids: vec![1, 1] }],
    };
    let fault = partition(reg, &plan).unwrap_err();
    assert_eq!(fault, PartitionFault::DuplicateClaim { id: 1 });
}

#[test]
fn missing_resource_is_rejected() {
    // Claiming an identifier absent from the registry fails immediately.
    let reg = registry_with(&[0]);
    let plan = Plan {
        entries: vec![PlanEntry { name: "Storage".to_string(), ids: vec![0, 7] }],
    };
    let fault = partition(reg, &plan).unwrap_err();
    assert_eq!(fault, PartitionFault::MissingResource { id: 7 });
}

#[test]
fn first_fault_in_plan_order_wins() {
    // The duplicate at the second position is hit before the missing
    // identifier later in the same bundle.
    let reg = registry_with(&[0]);
    let plan = Plan {
        entries: vec![PlanEntry { name: "LED".to_string(), ids: vec![0, 0, 9] }],
    };
    let fault = partition(reg, &plan).unwrap_err();
    assert_eq!(fault, PartitionFault::DuplicateClaim { id: 0 });
}

#[test]
fn bundles_are_disjoint_and_complete() {
    // Disjointness and completeness on a concrete plan: every claimed
    // identifier lives in exactly one bundle.
    let reg = registry_with(&[0, 1, 2, 3, 4]);
    let plan = Plan {
        entries: vec![
            PlanEntry { name: "LED".to_string(), ids: vec![0] },
            PlanEntry { name: "Display".to_string(), ids: vec![3, 1] },
            PlanEntry { name: "Storage".to_string(), ids: vec![4] },
        ],
    };
    let bundles = partition(reg, &plan).unwrap();
    assert_eq!(bundles.len(), 3);
    let claimed = [0u32, 1, 3, 4];
    for &id in &claimed {
        let mut owners = 0;
        for b in &bundles {
            if b.contains_id(id) {
                owners += 1;
            }
        }
        assert_eq!(owners, 1);
    }
    // The unclaimed identifier 2 is in no bundle.
    for b in &bundles {
        assert!(!b.contains_id(2));
    }
    // Claim order is kept within each bundle.
    assert_eq!(bundles[1].id_at(0), 3);
    assert_eq!(bundles[1].id_at(1), 1);
}

#[test]
fn registry_refuses_second_handle_for_same_resource() {
    let mut reg = Registry::new();
    assert!(reg.register(5, Capability::BusController));
    assert!(!reg.register(5, Capability::DigitalOutput));
    assert!(reg.register(6, Capability::Timer));
}

#[test]
fn empty_plan_partitions_to_nothing() {
    let reg = registry_with(&[0, 1]);
    let plan = Plan { entries: vec![] };
    let bundles = partition(reg, &plan).unwrap();
    assert_eq!(bundles.len(), 0);
}
