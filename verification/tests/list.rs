use ptip_ffi::util::list::{BranchStore, BranchedList, BranchedListError};

#[test]
fn empty_list_starts_empty() {
    let mut store: BranchStore<i32> = BranchStore::new();
    let list = BranchedList::empty(&mut store);
    assert!(list.root_branch_empty(&store));
    assert_eq!(list.root_branch_size(&store), 0);
    assert_eq!(list.get(&store, 0), None);
}

#[test]
fn with_value_starts_with_single_element() {
    let mut store: BranchStore<i32> = BranchStore::new();
    let list = BranchedList::with_value(&mut store, 7);
    assert!(!list.root_branch_empty(&store));
    assert_eq!(list.root_branch_size(&store), 1);
    assert_eq!(list.get(&store, 0), Some(7));
    assert_eq!(list.get(&store, 1), None);
}

#[test]
fn append_and_insert_modify_root_branch() {
    let mut store: BranchStore<i32> = BranchStore::new();
    let list = BranchedList::empty(&mut store);
    list.append(&mut store, 1);
    list.append(&mut store, 3);
    assert_eq!(list.root_branch_size(&store), 2);
    assert_eq!(list.get(&store, 0), Some(1));
    assert_eq!(list.get(&store, 1), Some(3));

    list.insert(&mut store, 2, 1).expect("insert at middle");
    assert_eq!(list.root_branch_size(&store), 3);
    assert_eq!(list.get(&store, 0), Some(1));
    assert_eq!(list.get(&store, 1), Some(2));
    assert_eq!(list.get(&store, 2), Some(3));

    list.insert(&mut store, 0, 0).expect("insert at start");
    assert_eq!(list.get(&store, 0), Some(0));
    assert_eq!(list.get(&store, 1), Some(1));

    let end = list.root_branch_size(&store);
    list.insert(&mut store, 4, end).expect("insert at end");
    assert_eq!(list.get(&store, list.root_branch_size(&store) - 1), Some(4));
}

#[test]
fn insert_out_of_bounds_errors() {
    let mut store: BranchStore<i32> = BranchStore::new();
    let list = BranchedList::with_value(&mut store, 1);
    match list.insert(&mut store, 2, 3) {
        Err(BranchedListError::CursorOutOfBounds) => {}
        other => panic!("expected CursorOutOfBounds, got: {:?}", other),
    }
}

#[test]
fn snapshot_shares_root_branch_contents() {
    let mut store: BranchStore<i32> = BranchStore::new();
    let list = BranchedList::with_value(&mut store, 1);
    let snapshot = list.snapshot();

    snapshot.append(&mut store, 2);
    assert_eq!(list.root_branch_size(&store), 2);
    assert_eq!(list.get(&store, 1), Some(2));

    list.append(&mut store, 3);
    assert_eq!(snapshot.root_branch_size(&store), 3);
    assert_eq!(snapshot.get(&store, 2), Some(3));
}

#[test]
fn branch_before_index_zero_works_on_empty_list_and_is_reused() {
    let mut store: BranchStore<i32> = BranchStore::new();
    let list = BranchedList::empty(&mut store);

    let b1 = list.branch_before_index(&mut store, "h", 0).expect("branch at gap 0");
    assert_eq!(b1.root_branch_size(&store), 0);
    b1.append(&mut store, 10);

    let b2 = list.branch_before_index(&mut store, "h", 0).expect("reuse same branch");
    assert_eq!(b2.get(&store, 0), Some(10));
    assert_eq!(b2.root_branch_size(&store), 1);

    // Root branch remains unchanged.
    assert_eq!(list.root_branch_size(&store), 0);
}

#[test]
fn branching_at_middle_and_end_gaps_creates_independent_paths() {
    let mut store: BranchStore<i32> = BranchStore::new();
    let list = BranchedList::empty(&mut store);
    list.append(&mut store, 1);
    list.append(&mut store, 2);
    list.append(&mut store, 3);

    // gap 1 = between 1 and 2
    let middle = list.branch_before_index(&mut store, "m", 1).expect("branch at middle gap");
    middle.append(&mut store, 100);

    // gap len = after last element
    let len = list.root_branch_size(&store);
    let end = list.branch_before_index(&mut store, "e", len).expect("branch at end gap");
    end.append(&mut store, 200);

    assert_eq!(middle.get(&store, 0), Some(100));
    assert_eq!(end.get(&store, 0), Some(200));
    assert_eq!(list.get(&store, 0), Some(1));
    assert_eq!(list.get(&store, 1), Some(2));
    assert_eq!(list.get(&store, 2), Some(3));
}

#[test]
fn branch_after_index_is_same_gap_as_branch_before_index_plus_one() {
    let mut store: BranchStore<i32> = BranchStore::new();
    let list = BranchedList::empty(&mut store);
    list.append(&mut store, 1);
    list.append(&mut store, 2);

    let after_first = list.branch_after_index(&mut store, "x", 0).expect("branch after index 0");
    after_first.append(&mut store, 9);

    // Same key and same gap via branch_before_index(1) should reuse.
    let same = list.branch_before_index(&mut store, "x", 1).expect("branch before index 1");
    assert_eq!(same.get(&store, 0), Some(9));
}

#[test]
fn branch_bounds_are_enforced() {
    let mut store: BranchStore<i32> = BranchStore::new();
    let empty = BranchedList::empty(&mut store);
    match empty.branch_before_index(&mut store, "k", 1) {
        Err(BranchedListError::CursorOutOfBounds) => {}
        _ => panic!("expected CursorOutOfBounds"),
    }

    let list = BranchedList::with_value(&mut store, 1);
    match list.branch_after_index(&mut store, "k", 1) {
        Err(BranchedListError::CursorOutOfBounds) => {}
        _ => panic!("expected CursorOutOfBounds"),
    }
}

#[test]
fn branches_created_from_snapshot_are_visible_from_original() {
    let mut store: BranchStore<i32> = BranchStore::new();
    let list = BranchedList::with_value(&mut store, 1);
    let snap = list.snapshot();

    let branch = snap.branch_before_index(&mut store, "b", 0).expect("branch from snapshot");
    branch.append(&mut store, 42);

    let branch_from_original = list.branch_before_index(&mut store, "b", 0).expect("branch from original");
    assert_eq!(branch_from_original.get(&store, 0), Some(42));
}

#[test]
fn insert_keeps_branches_with_their_element() {
    let mut store: BranchStore<i32> = BranchStore::new();
    let list = BranchedList::empty(&mut store);
    list.append(&mut store, 1);
    list.append(&mut store, 2);
    let after_one = list.branch_after_index(&mut store, "k", 0).expect("branch after 1");
    after_one.append(&mut store, 5);
    // A new element before 1 moves the gap after 1 from 1 to 2.
    list.insert(&mut store, 0, 0).expect("insert at start");
    let moved = list.branch_before_index(&mut store, "k", 2).expect("same branch");
    assert_eq!(moved.get(&store, 0), Some(5));
    let fresh = list.branch_before_index(&mut store, "k", 1).expect("new branch");
    assert_eq!(fresh.root_branch_size(&store), 0);
}
