//! Reading one workout: the ownership decision and the grouped view of the
//! workout's sets.

use vstd::prelude::*;

use crate::grouping::{group_sets_by_exercise, is_grouping_of};
use crate::records::{UserSet, WorkoutExerciseGroup};

verus! {

/// A recorded workout.
#[derive(Debug, Clone, PartialEq, Eq)]
pub struct Workout {
    pub id: u128,
    pub user_id: u128,
    pub name: Option<String>,
    pub start_time: i64,
    pub end_time: i64,
    pub privacy: String,
    pub gym_location: Option<String>,
    pub kind: String,
}

/// A workout together with its sets, grouped by exercise and profile.
#[derive(Debug, Clone, PartialEq, Eq)]
pub struct WorkoutWithSets {
    pub workout: Workout,
    pub exercises: Vec<WorkoutExerciseGroup>,
}

/// Whether the requesting user may read the workout: the stored owner must
/// exist and be that user. A missing workout and a foreign workout are
/// both refused.
pub fn workout_access(owner_id: Option<u128>, user_id: u128) -> (ok: bool)
    ensures
        ok <==> owner_id == Some(user_id),
{
    match owner_id {
        Some(id) => id == user_id,
        None => false,
    }
}

/// Assemble the grouped view of a workout from its ascending-by-
/// `created_at` set list.
pub fn build_workout_with_sets(workout: Workout, sets: Vec<UserSet>) -> (r: WorkoutWithSets)
    ensures
        r.workout == workout,
        is_grouping_of(r.exercises@, sets@),
{
    let exercises = group_sets_by_exercise(sets);
    WorkoutWithSets { workout, exercises }
}

} // verus!
