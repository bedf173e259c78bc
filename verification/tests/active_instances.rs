use mac_egg::active_instances::select_active_instances;

#[test]
fn all_eligible_instances_stay_active_under_the_cap() {
    let eligible = vec![3, 1, 3];
    assert_eq!(
        select_active_instances(&eligible, &vec![3, 1], &vec![1, 3], &vec![3, 1], 3, 1, 1, 1),
        vec![1, 3]
    );
}

#[test]
fn shares_then_round_robin_fill() {
    let eligible = vec![0, 1, 2, 3, 4, 5];
    let timing = vec![5, 4, 3, 2, 1, 0];
    let area = vec![0, 1, 2, 3, 4, 5];
    let power = vec![2, 3, 4, 5, 0, 1];
    assert_eq!(
        select_active_instances(&eligible, &timing, &area, &power, 4, 1, 1, 0),
        vec![0, 1, 4, 5]
    );
    assert_eq!(
        select_active_instances(&eligible, &timing, &area, &power, 5, 1, 1, 0),
        vec![0, 1, 3, 4, 5]
    );
}

#[test]
fn timing_share_of_a_single_slot_cap() {
    let eligible = vec![0, 1, 2];
    let first = select_active_instances(&eligible, &vec![2, 0, 1], &vec![0, 1, 2], &vec![1, 2, 0], 1, 1, 0, 0);
    let second = select_active_instances(&eligible, &vec![2, 0, 1], &vec![0, 1, 2], &vec![1, 2, 0], 1, 1, 0, 0);
    assert_eq!(first, vec![2]);
    assert_eq!(first, second);
}

#[test]
fn zero_cap_keeps_nothing_active() {
    let eligible = vec![0, 1];
    assert!(select_active_instances(&eligible, &vec![0, 1], &vec![1, 0], &vec![0, 1], 0, 5, 5, 5).is_empty());
}

#[test]
fn shares_larger_than_the_cap_are_clamped() {
    let eligible = vec![0, 1, 2, 3];
    assert_eq!(
        select_active_instances(&eligible, &vec![3, 2, 1, 0], &vec![0, 1, 2, 3], &vec![1, 0, 3, 2], 2, 9, 9, 9),
        vec![2, 3]
    );
}
