use std::collections::HashMap;

use cardbe::positions::assign_sparse_positions;

fn stored(pairs: &[(i64, i64)]) -> HashMap<i64, i64> {
    pairs.iter().copied().collect()
}

#[test]
fn the_longest_increasing_run_keeps_its_positions() {
    let old = stored(&[(1, 4096), (2, 1024), (3, 2048), (4, 3072)]);
    let assigned = assign_sparse_positions(&[1, 2, 3, 4], &old).unwrap();
    assert_eq!(assigned, stored(&[(1, 0), (2, 1024), (3, 2048), (4, 3072)]));
}

#[test]
fn a_moved_item_takes_the_middle_of_its_gap() {
    let old = stored(&[(1, 1024), (2, 2048), (3, 3072)]);
    let assigned = assign_sparse_positions(&[1, 3, 2], &old).unwrap();
    assert_eq!(assigned, stored(&[(1, 1024), (3, 1536), (2, 2048)]));
}

#[test]
fn a_gap_too_narrow_gives_every_item_a_fresh_position() {
    let old = stored(&[(1, 1), (2, 2), (3, 3)]);
    let assigned = assign_sparse_positions(&[1, 3, 2], &old).unwrap();
    assert_eq!(assigned, stored(&[(1, 1024), (3, 2048), (2, 3072)]));
}

#[test]
fn new_items_follow_the_kept_ones() {
    let old = stored(&[(1, 1024)]);
    let assigned = assign_sparse_positions(&[1, 7, 8], &old).unwrap();
    assert_eq!(assigned, stored(&[(1, 1024), (7, 2048), (8, 3072)]));
    assert!(assign_sparse_positions(&[], &old).unwrap().is_empty());
}

#[test]
fn the_last_longest_run_is_kept() {
    let old = HashMap::from([(1, 10), (2, 5), (3, 20), (4, 15)]);
    let positions = assign_sparse_positions(&[1, 2, 3, 4], &old).unwrap();
    assert_eq!(positions[&2], 5);
    assert_eq!(positions[&4], 15);
    assert!(positions[&1] < 5);
    assert!(5 < positions[&3] && positions[&3] < 15);
}
