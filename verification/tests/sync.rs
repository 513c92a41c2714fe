use odyssey_core::ecg::{equal_dags, Header, State};
use odyssey_core::ecg_sync::run_ecg_sync;

fn add_ops(st: &mut State, ops: &[(u64, &[u64])]) {
    for (header_id, parent_ids) in ops {
        let header = Header {
            header_id: *header_id,
            parent_ids: parent_ids.to_vec(),
        };
        assert!(st.insert_header(*header_id, header), "Failed to insert header");
    }
}

fn test_helper(common: &[(u64, &[u64])], left: &[(u64, &[u64])], right: &[(u64, &[u64])]) {
    let mut left_tree = State::new();
    add_ops(&mut left_tree, common);

    let mut right_tree = left_tree.clone();

    add_ops(&mut left_tree, left);
    add_ops(&mut right_tree, right);

    run_ecg_sync(&mut left_tree, &mut right_tree).expect("sync session did not quiesce");

    assert!(equal_dags(&left_tree, &right_tree));
}

fn test_both(common: &[(u64, &[u64])], left: &[(u64, &[u64])], right: &[(u64, &[u64])]) {
    test_helper(common, left, right);
    test_helper(common, right, left);
}

#[test]
fn empty1() {
    test_both(&[], &[], &[]);
}

#[test]
fn empty2() {
    test_both(
        &[],
        &[(0, &[]), (1, &[0])],
        &[(2, &[]), (3, &[]), (4, &[2, 3])],
    );
}

#[test]
fn empty_one1() {
    test_both(&[], &[], &[(0, &[]), (1, &[0])]);
}

#[test]
fn empty_one2() {
    test_both(&[(0, &[]), (1, &[0]), (2, &[])], &[(3, &[])], &[]);
}

#[test]
fn empty_one3() {
    test_both(&[(0, &[]), (1, &[0]), (2, &[])], &[(3, &[1, 2])], &[]);
}

#[test]
fn concurrent() {
    test_both(
        &[(0, &[]), (1, &[0]), (2, &[])],
        &[(3, &[1, 2])],
        &[(4, &[1])],
    );
}

#[test]
fn cross() {
    test_both(
        &[(0, &[]), (1, &[0]), (2, &[])],
        &[(3, &[1, 2])],
        &[(4, &[0, 2])],
    );
}

#[test]
fn sync_preserves_tips() {
    let common: &[(u64, &[u64])] = &[(0, &[]), (1, &[0]), (2, &[])];
    let mut l = State::new();
    add_ops(&mut l, common);
    let mut r = l.clone();
    add_ops(&mut l, &[(3, &[1, 2])]);
    add_ops(&mut r, &[(4, &[1])]);
    run_ecg_sync(&mut l, &mut r).expect("sync session did not quiesce");
    let mut l_tips = l.tips().clone();
    l_tips.sort();
    let mut r_tips = r.tips().clone();
    r_tips.sort();
    assert_eq!(l_tips, vec![3, 4]);
    assert_eq!(r_tips, vec![3, 4]);
}

#[test]
fn sync_cross_tips() {
    let common: &[(u64, &[u64])] = &[(0, &[]), (1, &[0]), (2, &[])];
    let mut l = State::new();
    add_ops(&mut l, common);
    let mut r = l.clone();
    add_ops(&mut l, &[(3, &[1, 2])]);
    add_ops(&mut r, &[(4, &[0, 2])]);
    run_ecg_sync(&mut l, &mut r).expect("sync session did not quiesce");
    assert!(equal_dags(&l, &r));
    let mut tips = l.tips().clone();
    tips.sort();
    assert_eq!(tips, vec![3, 4]);
}

#[test]
fn deep_chains_converge() {
    // two long chains sharing only the root: the probe narrows in on
    // the common ancestor and both sides end equal
    let mut l = State::new();
    let mut r = State::new();
    add_ops(&mut l, &[(0, &[])]);
    add_ops(&mut r, &[(0, &[])]);
    for i in 1..40u64 {
        add_ops(&mut l, &[(i, &[i - 1])]);
        add_ops(&mut r, &[(1000 + i, &[if i == 1 { 0 } else { 1000 + i - 1 }])]);
    }
    run_ecg_sync(&mut l, &mut r).expect("sync session did not quiesce");
    assert!(equal_dags(&l, &r));
}
