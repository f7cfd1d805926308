use process_forest::process::{InsertError, ProcessRecord, ProcessTree};

fn rec(pid: Option<u32>, parent_pid: Option<u32>) -> ProcessRecord {
    ProcessRecord { pid, parent_pid }
}

fn lines(t: &ProcessTree) -> Vec<(usize, Option<u32>, Option<u32>)> {
    t.dump().iter().map(|l| (l.depth, l.parent, l.pid)).collect()
}

#[test]
fn missing_pid_reports_invalid_record_and_changes_nothing() {
    let mut t = ProcessTree::new();
    assert_eq!(t.add_process(rec(Some(1), None)), Ok(()));
    let before = lines(&t);

    assert_eq!(
        t.add_process(rec(None, None)),
        Err(InsertError::InvalidRecord)
    );
    // even a record whose parent is present is refused without its own id
    assert_eq!(
        t.add_process(rec(None, Some(1))),
        Err(InsertError::InvalidRecord)
    );

    assert_eq!(lines(&t), before);
    assert_eq!(t.path_to_root(1), Some(vec![1]));
}

#[test]
fn child_after_parent_becomes_child_not_key() {
    let mut t = ProcessTree::new();
    assert_eq!(t.add_process(rec(Some(1), None)), Ok(()));
    assert_eq!(t.add_process(rec(Some(2), Some(1))), Ok(()));

    assert_eq!(
        lines(&t),
        vec![(0, None, Some(1)), (1, Some(1), Some(2))]
    );
    // the attached record is owned by the parent and no longer addressable
    assert_eq!(t.path_to_root(2), None);
}

#[test]
fn child_before_parent_becomes_own_root() {
    let mut t = ProcessTree::new();
    assert_eq!(t.add_process(rec(Some(2), Some(1))), Ok(()));

    assert_eq!(lines(&t), vec![(0, Some(1), Some(2))]);
    // the dangling parent identifier still opens the path
    assert_eq!(t.path_to_root(2), Some(vec![1, 2]));
}

#[test]
fn unknown_identifier_is_not_found() {
    let mut t = ProcessTree::new();
    assert_eq!(t.path_to_root(7), None);
    assert_eq!(t.add_process(rec(Some(1), None)), Ok(()));
    assert_eq!(t.path_to_root(7), None);
}

#[test]
fn root_without_parent_resolves_to_itself() {
    let mut t = ProcessTree::new();
    assert_eq!(t.add_process(rec(Some(5), None)), Ok(()));
    assert_eq!(t.path_to_root(5), Some(vec![5]));
}

#[test]
fn chain_inserted_in_order() {
    let mut t = ProcessTree::new();
    assert_eq!(t.add_process(rec(Some(1), None)), Ok(()));
    assert_eq!(t.add_process(rec(Some(2), Some(1))), Ok(()));
    assert_eq!(t.add_process(rec(Some(3), Some(2))), Ok(()));

    // 2 was attached under 1 and is no top-level key, so 3 became its
    // own root and its path stops at the unresolvable identifier 2
    assert_eq!(t.path_to_root(1), Some(vec![1]));
    assert_eq!(t.path_to_root(2), None);
    assert_eq!(t.path_to_root(3), Some(vec![2, 3]));
    assert_eq!(
        lines(&t),
        vec![
            (0, None, Some(1)),
            (1, Some(1), Some(2)),
            (0, Some(2), Some(3)),
        ]
    );
}

#[test]
fn child_then_parent_leaves_two_roots() {
    let mut t = ProcessTree::new();
    assert_eq!(t.add_process(rec(Some(2), Some(1))), Ok(()));
    assert_eq!(t.add_process(rec(Some(1), None)), Ok(()));

    // the earlier child is never reparented: both stay top-level roots
    assert_eq!(
        lines(&t),
        vec![(0, Some(1), Some(2)), (0, None, Some(1))]
    );
    assert_eq!(t.path_to_root(1), Some(vec![1]));
    // 1 is now a top-level key, so the walk from 2 passes through it
    assert_eq!(t.path_to_root(2), Some(vec![1, 2]));
}

#[test]
fn repeated_queries_answer_alike() {
    let mut t = ProcessTree::new();
    assert_eq!(t.add_process(rec(Some(1), None)), Ok(()));
    assert_eq!(t.add_process(rec(Some(2), Some(1))), Ok(()));
    assert_eq!(t.add_process(rec(Some(3), Some(9))), Ok(()));

    for pid in [1, 2, 3, 9] {
        let first = t.path_to_root(pid);
        let second = t.path_to_root(pid);
        assert_eq!(first, second);
    }
}

#[test]
fn reinserted_identifier_overwrites_its_root() {
    let mut t = ProcessTree::new();
    assert_eq!(t.add_process(rec(Some(1), None)), Ok(()));
    assert_eq!(t.add_process(rec(Some(2), Some(1))), Ok(()));
    assert_eq!(t.add_process(rec(Some(1), None)), Ok(()));

    // the fresh node replaced the old root, children and all
    assert_eq!(lines(&t), vec![(0, None, Some(1))]);
    assert_eq!(t.path_to_root(2), None);
}

#[test]
fn record_naming_a_present_key_as_both_ids_attaches() {
    let mut t = ProcessTree::new();
    assert_eq!(t.add_process(rec(Some(1), None)), Ok(()));
    assert_eq!(t.add_process(rec(Some(1), Some(1))), Ok(()));

    // the parent was present, so the record was attached, not keyed
    assert_eq!(
        lines(&t),
        vec![(0, None, Some(1)), (1, Some(1), Some(1))]
    );
    assert_eq!(t.path_to_root(1), Some(vec![1]));
}

#[test]
fn roots_keep_first_appearance_order() {
    let mut t = ProcessTree::new();
    assert_eq!(t.add_process(rec(Some(1), None)), Ok(()));
    assert_eq!(t.add_process(rec(Some(2), None)), Ok(()));
    assert_eq!(t.add_process(rec(Some(3), None)), Ok(()));
    assert_eq!(t.add_process(rec(Some(2), None)), Ok(()));

    assert_eq!(
        lines(&t),
        vec![(0, None, Some(1)), (0, None, Some(2)), (0, None, Some(3))]
    );
}
