//! The coordinator driven through whole requests: scenarios, cache
//! behavior, cancellation, and per-request failures.

use executor_core::coordinator::{
    Block, Coordinator, ExecError, RequestPlan, VerifyOutcome,
};
use executor_core::delta::DeltaSet;
use executor_core::snapshot::Snapshot;
use executor_core::store::{Store, StoreError};

fn bytes(s: &str) -> Vec<u8> {
    s.as_bytes().to_vec()
}

fn block(hash: u64, parent_hash: u64) -> Block {
    Block { hash, parent_hash, extrinsics: Vec::new() }
}

/// A coordinator whose genesis (hash 1) holds the given pairs.
fn coordinator_with_genesis(pairs: Vec<(Vec<u8>, Vec<u8>)>, retain_depth: u64) -> Coordinator {
    let mut store = Store::new();
    store.insert_snapshot(Snapshot::from_pairs(1, 0, pairs));
    Coordinator::new(store, retain_depth)
}

#[test]
fn accepted_block_commits_child_and_evicts_parent() {
    // Genesis has {"a": 1}; B1 applies {"a": 2, "b": 3}.
    let mut coord = coordinator_with_genesis(vec![(bytes("a"), vec![1])], 0);
    let mut delta = DeltaSet::new();
    delta.set(bytes("a"), Some(vec![2]));
    delta.set(bytes("b"), Some(vec![3]));
    let success = match coord.apply_outcome(block(2, 1), VerifyOutcome::Accepted { changes: delta })
    {
        Ok(s) => s,
        Err(_) => panic!("acceptance over a known parent must commit"),
    };
    assert_eq!(success.block.hash, 2);
    assert!(success.storage_changes.contains(&bytes("a")));
    let committed = coord.store.get(2).expect("the child snapshot must be live");
    assert_eq!(committed.get(&bytes("a")), Some(vec![2]));
    assert_eq!(committed.get(&bytes("b")), Some(vec![3]));
    assert!(matches!(coord.store.get(1), Err(StoreError::NotFound)));
}

#[test]
fn deletion_delta_removes_key_in_next_child() {
    // Continues the scenario: B2 applies {"b": <delete>} on B1.
    let mut coord = coordinator_with_genesis(vec![(bytes("a"), vec![1])], 0);
    let mut d1 = DeltaSet::new();
    d1.set(bytes("a"), Some(vec![2]));
    d1.set(bytes("b"), Some(vec![3]));
    coord.apply_outcome(block(2, 1), VerifyOutcome::Accepted { changes: d1 }).ok().unwrap();
    let mut d2 = DeltaSet::new();
    d2.set(bytes("b"), None);
    coord.apply_outcome(block(3, 2), VerifyOutcome::Accepted { changes: d2 }).ok().unwrap();
    let committed = coord.store.get(3).expect("B2 must be live");
    assert_eq!(committed.get(&bytes("a")), Some(vec![2]));
    assert_eq!(committed.get(&bytes("b")), None);
    assert!(matches!(coord.store.get(2), Err(StoreError::NotFound)));
}

#[test]
fn retention_depth_keeps_ancestors_alive() {
    let mut coord = coordinator_with_genesis(vec![(bytes("a"), vec![1])], 1);
    let mut d1 = DeltaSet::new();
    d1.set(bytes("a"), Some(vec![2]));
    coord.apply_outcome(block(2, 1), VerifyOutcome::Accepted { changes: d1 }).ok().unwrap();
    // One ancestor is retained: the genesis survives its child's commit.
    assert!(coord.store.get(1).is_ok());
    let d2 = DeltaSet::new();
    coord.apply_outcome(block(3, 2), VerifyOutcome::Accepted { changes: d2 }).ok().unwrap();
    // Now the genesis is two steps up and gets evicted; B1 stays.
    assert!(matches!(coord.store.get(1), Err(StoreError::NotFound)));
    assert!(coord.store.get(2).is_ok());
    assert!(coord.store.get(3).is_ok());
}

#[test]
fn canceled_request_is_discarded_without_work() {
    let coord = coordinator_with_genesis(vec![(bytes(":code"), bytes("p1"))], 0);
    let plan = coord.handle_request(&block(2, 1), false);
    assert!(matches!(plan, RequestPlan::Discard));
    // Nothing was mutated: the genesis is still the only snapshot and the
    // cache is still cold.
    assert!(coord.store.get(1).is_ok());
    assert!(coord.cache.is_none());
}

#[test]
fn unknown_parent_is_rejected_per_request() {
    let coord = coordinator_with_genesis(vec![(bytes(":code"), bytes("p1"))], 0);
    let plan = coord.handle_request(&block(5, 4), true);
    assert!(matches!(plan, RequestPlan::Reject { error: ExecError::MissingParentSnapshot }));
}

#[test]
fn parent_without_program_bytes_is_rejected() {
    let coord = coordinator_with_genesis(vec![(bytes("a"), vec![1])], 0);
    let plan = coord.handle_request(&block(2, 1), true);
    assert!(matches!(plan, RequestPlan::Reject { error: ExecError::CompileFailure }));
}

#[test]
fn failed_compilation_fails_only_that_request() {
    let mut coord = coordinator_with_genesis(vec![(bytes(":code"), bytes("p1"))], 0);
    let source = match coord.handle_request(&block(2, 1), true) {
        RequestPlan::Compile { source } => source,
        _ => panic!("a cold cache must ask for compilation"),
    };
    let r = coord.resolve_program(source, None);
    assert!(matches!(r, Err(ExecError::CompileFailure)));
    assert!(coord.cache.is_none());
    // The loop keeps serving: the next request plans normally.
    assert!(matches!(coord.handle_request(&block(2, 1), true), RequestPlan::Compile { .. }));
}

#[test]
fn rejection_is_surfaced_with_its_cause() {
    let mut coord = coordinator_with_genesis(vec![(bytes("a"), vec![1])], 0);
    let r = coord.apply_outcome(block(2, 1), VerifyOutcome::Rejected { cause: bytes("bad") });
    match r {
        Err(ExecError::VerificationRejected { cause }) => assert_eq!(cause, bytes("bad")),
        _ => panic!("a rejection must come back as VerificationRejected"),
    }
    // The rejection changed nothing.
    assert!(coord.store.get(1).is_ok());
}

#[test]
fn vanished_parent_at_commit_is_storage_inconsistency() {
    let mut coord = coordinator_with_genesis(vec![(bytes("a"), vec![1])], 0);
    let delta = DeltaSet::new();
    let r = coord.apply_outcome(block(9, 8), VerifyOutcome::Accepted { changes: delta });
    assert!(matches!(r, Err(ExecError::StorageInconsistency)));
}

#[test]
fn cache_compiles_once_for_identical_program_bytes() {
    let mut coord = coordinator_with_genesis(vec![
        (bytes(":code"), bytes("p1")),
        (bytes("a"), vec![1]),
    ], 0);
    // First request: cold cache, so the plan is to compile the stored bytes.
    let source = match coord.handle_request(&block(2, 1), true) {
        RequestPlan::Compile { source } => source,
        _ => panic!("a cold cache must ask for compilation"),
    };
    assert_eq!(source, bytes("p1"));
    coord.resolve_program(source, Some(7)).ok().unwrap();
    // Replanned, the same request now verifies with the cached program.
    match coord.handle_request(&block(2, 1), true) {
        RequestPlan::Verify { program, reader } => {
            assert_eq!(program.source, bytes("p1"));
            assert_eq!(program.compiled, 7);
            assert_eq!(reader.get(&bytes("a")), Some(vec![1]));
            assert_eq!(reader.block_hash, 1);
        },
        _ => panic!("a warm cache must not recompile"),
    }
    // Commit B1 without touching the program key.
    let mut d1 = DeltaSet::new();
    d1.set(bytes("a"), Some(vec![2]));
    coord.apply_outcome(block(2, 1), VerifyOutcome::Accepted { changes: d1 }).ok().unwrap();
    // Second request, same program bytes: zero recompilations.
    match coord.handle_request(&block(3, 2), true) {
        RequestPlan::Verify { program, .. } => assert_eq!(program.compiled, 7),
        _ => panic!("identical program bytes must reuse the cached program"),
    }
}

#[test]
fn runtime_upgrade_forces_recompile_from_new_bytes() {
    let mut coord = coordinator_with_genesis(vec![(bytes(":code"), bytes("p1"))], 0);
    let source = match coord.handle_request(&block(2, 1), true) {
        RequestPlan::Compile { source } => source,
        _ => panic!("a cold cache must ask for compilation"),
    };
    coord.resolve_program(source, Some(7)).ok().unwrap();
    // B1 upgrades the runtime: its delta writes the reserved program key.
    let mut d1 = DeltaSet::new();
    d1.set(bytes(":code"), Some(bytes("p2")));
    coord.apply_outcome(block(2, 1), VerifyOutcome::Accepted { changes: d1 }).ok().unwrap();
    assert!(coord.cache.is_none());
    // The next execution must recompile, and from the new bytes.
    match coord.handle_request(&block(3, 2), true) {
        RequestPlan::Compile { source } => assert_eq!(source, bytes("p2")),
        _ => panic!("a runtime upgrade must force one recompilation"),
    }
    coord.resolve_program(bytes("p2"), Some(8)).ok().unwrap();
    match coord.handle_request(&block(3, 2), true) {
        RequestPlan::Verify { program, .. } => assert_eq!(program.compiled, 8),
        _ => panic!("after the recompilation the new program is reused"),
    }
}
