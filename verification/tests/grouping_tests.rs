use workout_history::grouping::group_sets_by_exercise;
use workout_history::records::{DecimalValue, UserSet};

fn set(
    id: u128,
    exercise_id: u128,
    profile_id: Option<u128>,
    created_at: i64,
    side: Option<&str>,
) -> UserSet {
    UserSet {
        id,
        user_id: 7,
        exercise_id,
        workout_id: 100,
        profile_id,
        reps: 5,
        weight: DecimalValue { mantissa: 225, scale: 1 },
        weight_unit: String::from("kg"),
        created_at,
        side: side.map(String::from),
    }
}

#[test]
fn empty_input_gives_empty_groups() {
    let groups = group_sets_by_exercise(Vec::new());
    assert!(groups.is_empty());
}

#[test]
fn groups_follow_first_seen_order() {
    // [{E1,P1,t1},{E2,none,t2},{E1,P1,t3}] -> [(E1,P1) with 2 sets, (E2,none) with 1 set]
    let sets = vec![
        set(1, 1, Some(10), 1, None),
        set(2, 2, None, 2, None),
        set(3, 1, Some(10), 3, None),
    ];
    let groups = group_sets_by_exercise(sets);
    assert_eq!(groups.len(), 2);
    assert_eq!(groups[0].exercise_id, 1);
    assert_eq!(groups[0].profile_id, Some(10));
    assert_eq!(groups[0].sets.len(), 2);
    assert_eq!(groups[0].sets[0].id, 1);
    assert_eq!(groups[0].sets[1].id, 3);
    assert_eq!(groups[1].exercise_id, 2);
    assert_eq!(groups[1].profile_id, None);
    assert_eq!(groups[1].sets.len(), 1);
    assert_eq!(groups[1].sets[0].id, 2);
}

#[test]
fn default_profile_is_a_distinct_key() {
    let sets = vec![set(1, 1, None, 1, None), set(2, 1, Some(10), 2, None)];
    let groups = group_sets_by_exercise(sets);
    assert_eq!(groups.len(), 2);
    assert_eq!(groups[0].profile_id, None);
    assert_eq!(groups[1].profile_id, Some(10));
}

#[test]
fn every_set_lands_in_exactly_one_group() {
    let sets = vec![
        set(1, 1, None, 1, None),
        set(2, 2, None, 2, None),
        set(3, 1, None, 3, None),
        set(4, 3, Some(9), 4, None),
        set(5, 2, None, 5, None),
    ];
    let groups = group_sets_by_exercise(sets);
    let total: usize = groups.iter().map(|g| g.sets.len()).sum();
    assert_eq!(total, 5);
    let mut seen: Vec<u128> = groups.iter().flat_map(|g| g.sets.iter().map(|s| s.id)).collect();
    seen.sort();
    assert_eq!(seen, vec![1, 2, 3, 4, 5]);
}

#[test]
fn unilateral_iff_some_set_has_a_side() {
    let sets = vec![
        set(1, 1, None, 1, Some("L")),
        set(2, 1, None, 2, None),
        set(3, 2, None, 3, None),
    ];
    let groups = group_sets_by_exercise(sets);
    assert_eq!(groups.len(), 2);
    // a side-bearing set makes the group unilateral, and a later side-less
    // set does not clear the flag
    assert!(groups[0].is_unilateral);
    assert!(!groups[1].is_unilateral);
}

#[test]
fn unilateral_set_after_plain_set_flips_the_flag() {
    let sets = vec![set(1, 1, None, 1, None), set(2, 1, None, 2, Some("R"))];
    let groups = group_sets_by_exercise(sets);
    assert_eq!(groups.len(), 1);
    assert!(groups[0].is_unilateral);
}

#[test]
fn group_keeps_set_values() {
    let sets = vec![set(1, 1, None, 1, Some("L"))];
    let groups = group_sets_by_exercise(sets);
    assert_eq!(groups[0].sets[0].reps, 5);
    assert_eq!(groups[0].sets[0].weight, DecimalValue { mantissa: 225, scale: 1 });
    assert_eq!(groups[0].sets[0].weight_unit, "kg");
    assert_eq!(groups[0].sets[0].side.as_deref(), Some("L"));
}
