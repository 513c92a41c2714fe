use odyssey_core::ecg::{equal_dags, Header, State};
use odyssey_core::ecg_sync::{is_power_of_two, tip_count_of, ECGSyncError, HeaderBitmap};

fn hdr(id: u64, parents: &[u64]) -> Header {
    Header {
        header_id: id,
        parent_ids: parents.to_vec(),
    }
}

#[test]
fn depths_follow_the_rule() {
    let mut st = State::new();
    assert!(st.insert_header(0, hdr(0, &[])));
    assert!(st.insert_header(1, hdr(1, &[0])));
    assert!(st.insert_header(2, hdr(2, &[])));
    assert!(st.insert_header(3, hdr(3, &[1, 2])));
    assert_eq!(st.get_header_depth(&0), Some(1));
    assert_eq!(st.get_header_depth(&1), Some(2));
    assert_eq!(st.get_header_depth(&2), Some(1));
    // depth is one more than the least parent depth: min(2, 1) + 1
    assert_eq!(st.get_header_depth(&3), Some(2));
    assert_eq!(st.get_header_depth(&7), None);
}

#[test]
fn tips_track_childless_nodes() {
    let mut st = State::new();
    assert!(st.insert_header(0, hdr(0, &[])));
    assert_eq!(st.tips().clone(), vec![0]);
    assert!(st.insert_header(1, hdr(1, &[0])));
    assert!(st.insert_header(2, hdr(2, &[])));
    let mut tips = st.tips().clone();
    tips.sort();
    assert_eq!(tips, vec![1, 2]);
    assert!(st.insert_header(3, hdr(3, &[1, 2])));
    assert_eq!(st.tips().clone(), vec![3]);
}

#[test]
fn insert_rejects_bad_headers() {
    let mut st = State::new();
    // claimed id must match the header's own id
    assert!(!st.insert_header(5, hdr(4, &[])));
    // parents must all be present
    assert!(!st.insert_header(1, hdr(1, &[0])));
    assert!(st.insert_header(0, hdr(0, &[])));
    // duplicate parents are refused
    assert!(!st.insert_header(2, hdr(2, &[0, 0])));
    assert!(st.insert_header(1, hdr(1, &[0])));
}

#[test]
fn insert_is_idempotent_on_duplicate_id() {
    let mut st = State::new();
    assert!(st.insert_header(0, hdr(0, &[])));
    assert!(st.insert_header(1, hdr(1, &[0])));
    // a second insert of the same id is a rejected no-op
    assert!(!st.insert_header(1, hdr(1, &[0])));
    assert!(!st.insert_header(0, hdr(0, &[])));
    let mut other = State::new();
    assert!(other.insert_header(0, hdr(0, &[])));
    assert!(other.insert_header(1, hdr(1, &[0])));
    assert!(equal_dags(&st, &other));
}

#[test]
fn parents_and_children_queries() {
    let mut st = State::new();
    assert!(st.insert_header(0, hdr(0, &[])));
    assert!(st.insert_header(1, hdr(1, &[0])));
    assert!(st.insert_header(2, hdr(2, &[0])));
    assert_eq!(st.get_parents(&1), Some(vec![0]));
    assert_eq!(st.get_parents(&0), Some(vec![]));
    assert_eq!(st.get_parents(&9), None);
    assert_eq!(st.get_parents_with_depth(&1), Some(vec![(1, 0)]));
    let mut children = st.get_children_with_depth(&0).unwrap();
    children.sort();
    assert_eq!(children, vec![(2, 1), (2, 2)]);
    assert_eq!(st.get_children_with_depth(&1), Some(vec![]));
    assert!(st.contains(&2));
    assert!(!st.contains(&3));
    let stored = st.get_header(&2).unwrap();
    assert_eq!(stored.header_id, 2);
    assert_eq!(stored.parent_ids, vec![0]);
}

#[test]
fn equal_dags_spots_differences() {
    let mut a = State::new();
    let mut b = State::new();
    assert!(a.insert_header(0, hdr(0, &[])));
    assert!(b.insert_header(0, hdr(0, &[])));
    assert!(equal_dags(&a, &b));
    assert!(a.insert_header(1, hdr(1, &[0])));
    assert!(!equal_dags(&a, &b));
    assert!(b.insert_header(1, hdr(1, &[0])));
    assert!(equal_dags(&a, &b));
}

#[test]
fn tip_count_overflow_is_refused() {
    assert_eq!(tip_count_of(12), Ok(12));
    assert_eq!(tip_count_of(65535), Ok(65535));
    assert_eq!(tip_count_of(65536), Err(ECGSyncError::TooManyTips));
    assert_eq!(tip_count_of(100_000), Err(ECGSyncError::TooManyTips));
}

#[test]
fn power_of_two_check() {
    assert!(is_power_of_two(0));
    assert!(is_power_of_two(1));
    assert!(is_power_of_two(2));
    assert!(is_power_of_two(4));
    assert!(is_power_of_two(1024));
    assert!(is_power_of_two(1u64 << 63));
    assert!(!is_power_of_two(3));
    assert!(!is_power_of_two(6));
    assert!(!is_power_of_two(u64::MAX));
}

#[test]
fn bitmap_bits_are_independent() {
    let mut bm = HeaderBitmap::new();
    for i in 0..32 {
        assert!(!bm.get(i));
    }
    bm.set(0, true);
    bm.set(31, true);
    bm.set(5, true);
    assert!(bm.get(0) && bm.get(5) && bm.get(31));
    assert!(!bm.get(1) && !bm.get(30));
    bm.set(5, false);
    assert!(!bm.get(5));
    assert!(bm.get(0) && bm.get(31));
    // most-significant bit is index 0
    assert_eq!(HeaderBitmap::from_u32(0x8000_0000).get(0), true);
    assert_eq!(HeaderBitmap::from_u32(0x8000_0000).get(1), false);
    let word = bm.to_u32();
    let back = HeaderBitmap::from_u32(word);
    for i in 0..32 {
        assert_eq!(bm.get(i), back.get(i));
    }
}
