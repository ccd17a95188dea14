use workout_history::previous::resolve;
use workout_history::records::{DecimalValue, GroupKey, PreviousSetRow};

fn row(
    exercise_id: u128,
    profile_id: Option<u128>,
    reps: i32,
    created_at: i64,
    end_time: i64,
) -> PreviousSetRow {
    PreviousSetRow {
        exercise_id,
        profile_id,
        reps,
        weight: DecimalValue { mantissa: 100, scale: 0 },
        weight_unit: String::from("kg"),
        side: None,
        created_at,
        end_time,
    }
}

#[test]
fn latest_workout_wins() {
    // W1 ends 2024-01-02, W2 ends 2024-01-05: only W2's set survives
    let t_w1: i64 = 1704153600;
    let t_w2: i64 = 1704412800;
    let rows = vec![row(1, None, 5, 10, t_w1), row(1, None, 8, 20, t_w2)];
    let entries = resolve(rows);
    assert_eq!(entries.len(), 1);
    assert_eq!(entries[0].key, GroupKey { exercise_id: 1, profile_id: None });
    assert_eq!(entries[0].sets.len(), 1);
    assert_eq!(entries[0].sets[0].reps, 8);
}

#[test]
fn dense_rank_keeps_all_tied_latest_workouts() {
    // workouts ending [W1=t3, W2=t3, W3=t1]: W1 and W2 tie for rank one,
    // so their sets all survive; W3's set is excluded
    let t1: i64 = 100;
    let t3: i64 = 300;
    let rows = vec![
        row(1, None, 1, 10, t3),  // W1
        row(1, None, 2, 20, t3),  // W2
        row(1, None, 3, 30, t1),  // W3
        row(1, None, 4, 15, t3),  // W1 again
    ];
    let entries = resolve(rows);
    assert_eq!(entries.len(), 1);
    let reps: Vec<i32> = entries[0].sets.iter().map(|s| s.reps).collect();
    // survivors ordered ascending by created_at: 10, 15, 20
    assert_eq!(reps, vec![1, 4, 2]);
}

#[test]
fn partitions_are_per_key_and_first_seen_ordered() {
    let rows = vec![
        row(2, None, 1, 10, 100),
        row(1, Some(9), 2, 20, 100),
        row(2, None, 3, 30, 200),
    ];
    let entries = resolve(rows);
    assert_eq!(entries.len(), 2);
    assert_eq!(entries[0].key, GroupKey { exercise_id: 2, profile_id: None });
    assert_eq!(entries[1].key, GroupKey { exercise_id: 1, profile_id: Some(9) });
    // for key 2 only the set of the workout ending at 200 survives
    assert_eq!(entries[0].sets.len(), 1);
    assert_eq!(entries[0].sets[0].reps, 3);
    assert_eq!(entries[1].sets.len(), 1);
    assert_eq!(entries[1].sets[0].reps, 2);
}

#[test]
fn absent_key_has_no_entry() {
    let rows = vec![row(1, None, 5, 10, 100)];
    let entries = resolve(rows);
    assert_eq!(entries.len(), 1);
    assert!(entries.iter().all(|e| e.key != GroupKey { exercise_id: 2, profile_id: None }));
}

#[test]
fn empty_history_resolves_to_empty_mapping() {
    let entries = resolve(Vec::new());
    assert!(entries.is_empty());
}

#[test]
fn survivors_sort_is_stable_on_equal_created_at() {
    let rows = vec![
        row(1, None, 1, 50, 100),
        row(1, None, 2, 50, 100),
        row(1, None, 3, 40, 100),
    ];
    let entries = resolve(rows);
    let reps: Vec<i32> = entries[0].sets.iter().map(|s| s.reps).collect();
    // the two rows created at 50 keep their input order after the sort
    assert_eq!(reps, vec![3, 1, 2]);
}

#[test]
fn resolve_is_deterministic_on_a_snapshot() {
    let rows = vec![
        row(1, None, 1, 10, 300),
        row(2, Some(4), 2, 20, 300),
        row(1, None, 3, 30, 100),
        row(2, Some(4), 4, 40, 400),
    ];
    let a = resolve(rows.clone());
    let b = resolve(rows);
    assert_eq!(a, b);
}

#[test]
fn baseline_keeps_values_and_drops_identity() {
    let mut r = row(1, None, 12, 10, 100);
    r.weight = DecimalValue { mantissa: 625, scale: 1 };
    r.weight_unit = String::from("lb");
    r.side = Some(String::from("L"));
    let entries = resolve(vec![r]);
    let b = &entries[0].sets[0];
    assert_eq!(b.reps, 12);
    assert_eq!(b.weight, DecimalValue { mantissa: 625, scale: 1 });
    assert_eq!(b.weight_unit, "lb");
    assert_eq!(b.side.as_deref(), Some("L"));
}
