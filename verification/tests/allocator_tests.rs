use banker::AllocationOutcome;
use banker::BankerAlgorithm;

/// Every resource must satisfy `available + sum of allocations == capacity`.
fn check_conservation(b: &BankerAlgorithm) {
    for r in 0..b.num_resources() {
        let mut held: usize = 0;
        for p in 0..b.num_processes() {
            held += b.alloc_of(r, p);
        }
        assert_eq!(b.available_of(r) + held, b.capacity_of(r));
    }
}

#[test]
fn construction_rejects_row_count_mismatch() {
    assert!(BankerAlgorithm::new(vec![10], vec![]).is_none());
    assert!(BankerAlgorithm::new(vec![10, 5], vec![vec![1, 2]]).is_none());
}

#[test]
fn construction_rejects_ragged_claim_rows() {
    assert!(BankerAlgorithm::new(vec![10, 5], vec![vec![1, 2], vec![1]]).is_none());
}

#[test]
fn construction_of_empty_allocator() {
    let mut b = BankerAlgorithm::new(vec![], vec![]).unwrap();
    assert_eq!(b.num_resources(), 0);
    assert_eq!(b.num_processes(), 0);
    assert!(b.is_safe());
    assert!(!b.terminate_process(0));
}

#[test]
fn construction_initial_state() {
    let b = BankerAlgorithm::new(vec![10, 3], vec![vec![6, 5], vec![1, 2]]).unwrap();
    assert_eq!(b.num_resources(), 2);
    assert_eq!(b.num_processes(), 2);
    assert_eq!(b.capacity_of(0), 10);
    assert_eq!(b.capacity_of(1), 3);
    assert_eq!(b.available_of(0), 10);
    assert_eq!(b.available_of(1), 3);
    for r in 0..2 {
        for p in 0..2 {
            assert_eq!(b.alloc_of(r, p), 0);
        }
    }
    assert!(b.is_running(0));
    assert!(b.is_running(1));
    assert_eq!(b.claim_of(0, 1), 5);
    check_conservation(&b);
}

#[test]
fn single_resource_grant() {
    // Two processes with claims 6 and 5 on one resource of 10 units.
    let mut b = BankerAlgorithm::new(vec![10], vec![vec![6, 5]]).unwrap();
    assert_eq!(b.allocate_resource(0, 0, 4), AllocationOutcome::Granted);
    assert_eq!(b.available_of(0), 6);
    assert_eq!(b.alloc_of(0, 0), 4);
    assert!(b.is_safe());
    check_conservation(&b);
}

#[test]
fn second_request_checked_for_safety() {
    // Same setup; the second process asks for its whole claim at once.  A
    // safe sequence still exists (it can finish immediately and return its
    // units), so the request is granted.
    let mut b = BankerAlgorithm::new(vec![10], vec![vec![6, 5]]).unwrap();
    assert_eq!(b.allocate_resource(0, 0, 4), AllocationOutcome::Granted);
    assert_eq!(b.allocate_resource(1, 0, 5), AllocationOutcome::Granted);
    assert_eq!(b.available_of(0), 1);
    assert_eq!(b.alloc_of(0, 1), 5);
    assert!(b.is_safe());
    check_conservation(&b);
}

#[test]
fn unsafe_request_denied_and_rolled_back() {
    // With larger claims the same request would leave no process able to
    // finish: it is denied and the state is exactly as before.
    let mut b = BankerAlgorithm::new(vec![10], vec![vec![8, 7]]).unwrap();
    assert_eq!(b.allocate_resource(0, 0, 4), AllocationOutcome::Granted);
    assert_eq!(b.allocate_resource(1, 0, 5), AllocationOutcome::NotSafe);
    assert_eq!(b.available_of(0), 6);
    assert_eq!(b.alloc_of(0, 0), 4);
    assert_eq!(b.alloc_of(0, 1), 0);
    assert!(b.is_safe());
    check_conservation(&b);
}

#[test]
fn claim_violation_rejected() {
    // Requesting 4 units against a claim of 3 fails without touching state.
    let mut b = BankerAlgorithm::new(vec![3], vec![vec![3]]).unwrap();
    assert_eq!(b.allocate_resource(0, 0, 4), AllocationOutcome::ClaimViolation);
    assert_eq!(b.available_of(0), 3);
    assert_eq!(b.alloc_of(0, 0), 0);
    check_conservation(&b);
}

#[test]
fn allocate_rejects_bad_indices() {
    let mut b = BankerAlgorithm::new(vec![10], vec![vec![6, 5]]).unwrap();
    assert_eq!(b.allocate_resource(2, 0, 1), AllocationOutcome::InvalidParameters);
    assert_eq!(b.allocate_resource(0, 1, 1), AllocationOutcome::InvalidParameters);
    assert_eq!(b.available_of(0), 10);
}

#[test]
fn unavailable_request_does_not_fail_claim_check() {
    let mut b = BankerAlgorithm::new(vec![10], vec![vec![10, 5]]).unwrap();
    assert_eq!(b.allocate_resource(0, 0, 8), AllocationOutcome::Granted);
    // Within the second process's claim, but only 2 units remain.
    assert_eq!(b.allocate_resource(1, 0, 5), AllocationOutcome::Unavailable);
    assert_eq!(b.available_of(0), 2);
    assert_eq!(b.alloc_of(0, 1), 0);
    check_conservation(&b);
}

#[test]
fn over_release_rejected() {
    // Holding 2 units, releasing 3 fails and changes nothing.
    let mut b = BankerAlgorithm::new(vec![10], vec![vec![6]]).unwrap();
    assert_eq!(b.allocate_resource(0, 0, 2), AllocationOutcome::Granted);
    assert!(!b.release_resource(0, 0, 3));
    assert_eq!(b.alloc_of(0, 0), 2);
    assert_eq!(b.available_of(0), 8);
    check_conservation(&b);
}

#[test]
fn release_returns_units() {
    let mut b = BankerAlgorithm::new(vec![10], vec![vec![6]]).unwrap();
    assert_eq!(b.allocate_resource(0, 0, 2), AllocationOutcome::Granted);
    assert!(b.release_resource(0, 0, 2));
    assert_eq!(b.alloc_of(0, 0), 0);
    assert_eq!(b.available_of(0), 10);
    check_conservation(&b);
}

#[test]
fn release_rejects_bad_indices() {
    let mut b = BankerAlgorithm::new(vec![10], vec![vec![6]]).unwrap();
    assert!(!b.release_resource(0, 1, 1));
    assert!(!b.release_resource(1, 0, 1));
    assert_eq!(b.available_of(0), 10);
}

#[test]
fn terminate_frees_held_units() {
    // The process holds 4 of 10 units (6 available); after terminate all 10
    // are available, its allocation is zero, and it is no longer running.
    let mut b = BankerAlgorithm::new(vec![10], vec![vec![6, 5]]).unwrap();
    assert_eq!(b.allocate_resource(0, 0, 4), AllocationOutcome::Granted);
    assert_eq!(b.available_of(0), 6);
    assert!(b.terminate_process(0));
    assert_eq!(b.available_of(0), 10);
    assert_eq!(b.alloc_of(0, 0), 0);
    assert!(!b.is_running(0));
    check_conservation(&b);
}

#[test]
fn terminate_twice_fails_second_time() {
    let mut b = BankerAlgorithm::new(vec![10], vec![vec![6, 5]]).unwrap();
    assert_eq!(b.allocate_resource(0, 0, 4), AllocationOutcome::Granted);
    assert!(b.terminate_process(0));
    let available = b.available_of(0);
    assert!(!b.terminate_process(0));
    assert_eq!(b.available_of(0), available);
    assert!(!b.is_running(0));
    check_conservation(&b);
}

#[test]
fn terminate_rejects_bad_index() {
    let mut b = BankerAlgorithm::new(vec![10], vec![vec![6]]).unwrap();
    assert!(!b.terminate_process(5));
    assert!(b.is_running(0));
}

#[test]
fn terminated_process_excluded_from_safety() {
    // The sole process's claim exceeds capacity, so the fresh state is
    // unsafe; once it terminates, no running process remains and the state
    // is trivially safe.
    let mut b = BankerAlgorithm::new(vec![5], vec![vec![6]]).unwrap();
    assert!(!b.is_safe());
    assert!(b.terminate_process(0));
    assert!(b.is_safe());
}

#[test]
fn oversized_claim_makes_state_unsafe() {
    let mut b = BankerAlgorithm::new(vec![5], vec![vec![6]]).unwrap();
    // Even a small request cannot make the state safe, so it is denied.
    assert_eq!(b.allocate_resource(0, 0, 1), AllocationOutcome::NotSafe);
    assert_eq!(b.available_of(0), 5);
    assert_eq!(b.alloc_of(0, 0), 0);
}

#[test]
fn multi_resource_session() {
    // Three processes contending for 100 + 1 + 1 units.
    let resources = vec![100, 1, 1];
    let claim = vec![vec![70, 70, 50], vec![1, 1, 0], vec![0, 0, 1]];
    let mut b = BankerAlgorithm::new(resources, claim).unwrap();

    assert_eq!(b.allocate_resource(0, 0, 40), AllocationOutcome::Granted);
    assert_eq!(b.available_of(0), 60);

    // Granting 40 more to the second process would leave 20 units with every
    // process needing at least 30 to finish.
    assert_eq!(b.allocate_resource(1, 0, 40), AllocationOutcome::NotSafe);
    assert_eq!(b.available_of(0), 60);
    assert_eq!(b.alloc_of(0, 1), 0);

    assert!(b.terminate_process(0));
    assert_eq!(b.available_of(0), 100);

    assert_eq!(b.allocate_resource(1, 0, 40), AllocationOutcome::Granted);
    assert_eq!(b.allocate_resource(1, 1, 1), AllocationOutcome::Granted);
    assert_eq!(b.allocate_resource(2, 2, 1), AllocationOutcome::Granted);
    assert!(b.is_safe());
    check_conservation(&b);

    assert!(b.terminate_process(1));
    assert!(b.terminate_process(2));
    assert_eq!(b.available_of(0), 100);
    assert_eq!(b.available_of(1), 1);
    assert_eq!(b.available_of(2), 1);
    check_conservation(&b);
}
