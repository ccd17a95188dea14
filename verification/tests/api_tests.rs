use workout_history::bootstrap::{
    build_bootstrap_response, BootstrapGymProfileMapping, ExerciseProfile,
};
use workout_history::gyms::Gym;
use workout_history::keys::render_group_key;
use workout_history::records::{DecimalValue, GroupKey, PreviousSetRow, UserSet};
use workout_history::routes::HttpMethod;
use workout_history::workouts::{build_workout_with_sets, workout_access, Workout};
use workout_history::{gyms, sync};

#[test]
fn default_key_renders_with_default_suffix() {
    let k = GroupKey { exercise_id: 0, profile_id: None };
    assert_eq!(render_group_key(&k), "00000000-0000-0000-0000-000000000000_default");
}

#[test]
fn concrete_profile_key_renders_both_uuids() {
    let k = GroupKey {
        exercise_id: 0x11112222333344445555666677778888,
        profile_id: Some(0xab),
    };
    assert_eq!(
        render_group_key(&k),
        "11112222-3333-4444-5555-666677778888_00000000-0000-0000-0000-0000000000ab"
    );
}

#[test]
fn workout_access_requires_the_owner() {
    assert!(workout_access(Some(5), 5));
    assert!(!workout_access(Some(6), 5));
    assert!(!workout_access(None, 5));
}

#[test]
fn workout_with_sets_groups_its_sets() {
    let workout = Workout {
        id: 1,
        user_id: 5,
        name: Some(String::from("push day")),
        start_time: 100,
        end_time: 200,
        privacy: String::from("private"),
        gym_location: None,
        kind: String::from("strength"),
    };
    let sets = vec![UserSet {
        id: 1,
        user_id: 5,
        exercise_id: 3,
        workout_id: 1,
        profile_id: None,
        reps: 10,
        weight: DecimalValue { mantissa: 80, scale: 0 },
        weight_unit: String::from("kg"),
        created_at: 150,
        side: None,
    }];
    let r = build_workout_with_sets(workout.clone(), sets);
    assert_eq!(r.workout, workout);
    assert_eq!(r.exercises.len(), 1);
    assert_eq!(r.exercises[0].exercise_id, 3);
    assert_eq!(r.exercises[0].sets.len(), 1);
}

#[test]
fn bootstrap_response_carries_crud_records_through() {
    let gym = Gym { id: 1, user_id: 2, name: String::from("home"), created_at: 10 };
    let profile = ExerciseProfile {
        id: 3,
        user_id: 2,
        exercise_id: 4,
        name: String::from("dumbbell"),
        created_at: 11,
    };
    let mapping = BootstrapGymProfileMapping { gym_id: 1, exercise_id: 4, profile_id: 3 };
    let history = vec![PreviousSetRow {
        exercise_id: 4,
        profile_id: None,
        reps: 8,
        weight: DecimalValue { mantissa: 20, scale: 0 },
        weight_unit: String::from("kg"),
        side: None,
        created_at: 5,
        end_time: 50,
    }];
    let r = build_bootstrap_response(
        vec![gym.clone()],
        vec![profile.clone()],
        vec![mapping],
        history,
    );
    assert_eq!(r.gyms, vec![gym]);
    assert_eq!(r.profiles, vec![profile]);
    assert_eq!(r.gym_profile_mappings, vec![mapping]);
    assert_eq!(r.previous_sets.len(), 1);
    assert_eq!(
        r.previous_sets[0].0,
        "00000000-0000-0000-0000-000000000004_default"
    );
    assert_eq!(r.previous_sets[0].1.len(), 1);
    assert_eq!(r.previous_sets[0].1[0].reps, 8);
}

#[test]
fn bootstrap_previous_sets_mapping_is_sparse() {
    let r = build_bootstrap_response(Vec::new(), Vec::new(), Vec::new(), Vec::new());
    assert!(r.previous_sets.is_empty());
}

#[test]
fn gyms_router_lists_its_routes() {
    let r = gyms::router();
    let got: Vec<(HttpMethod, &str)> = r.iter().map(|x| (x.method, x.path)).collect();
    assert_eq!(
        got,
        vec![
            (HttpMethod::Get, ""),
            (HttpMethod::Post, ""),
            (HttpMethod::Put, "/{gym_id}"),
            (HttpMethod::Delete, "/{gym_id}"),
            (HttpMethod::Get, "/{gym_id}/profile-mappings"),
            (HttpMethod::Put, "/{gym_id}/profile-mappings"),
        ]
    );
}

#[test]
fn sync_router_lists_its_routes() {
    let r = sync::router();
    let got: Vec<(HttpMethod, &str)> = r.iter().map(|x| (x.method, x.path)).collect();
    assert_eq!(
        got,
        vec![(HttpMethod::Post, "/workout"), (HttpMethod::Get, "/bootstrap")]
    );
}
