//! Records of the offline-sync area: the shape of an uploaded workout and
//! the area's route table.

use vstd::prelude::*;

use crate::records::DecimalValue;
use crate::routes::{HttpMethod, Route};

verus! {

/// One set of an uploaded workout.
#[derive(Debug, Clone, PartialEq, Eq)]
pub struct SyncSet {
    pub reps: i32,
    pub weight: DecimalValue,
    pub weight_unit: String,
    pub created_at: i64,
    /// Side for unilateral exercises: "L" or "R".
    pub side: Option<String>,
}

/// One exercise of an uploaded workout, with its sets.
#[derive(Debug, Clone, PartialEq, Eq)]
pub struct SyncExercise {
    pub exercise_id: u128,
    pub profile_id: Option<u128>,
    pub sets: Vec<SyncSet>,
}

/// A completed workout uploaded from offline storage.
#[derive(Debug, Clone, PartialEq, Eq)]
pub struct SyncWorkoutRequest {
    pub name: Option<String>,
    pub start_time: i64,
    pub end_time: i64,
    pub privacy: String,
    pub gym_location: Option<String>,
    pub exercises: Vec<SyncExercise>,
    pub kind: String,
}

/// The routes of the sync area: upload a workout and read the bootstrap
/// snapshot.
pub fn router() -> (r: Vec<Route>)
    ensures
        r@.len() == 2,
        r@[0].method == HttpMethod::Post && r@[0].path@ == "/workout"@,
        r@[1].method == HttpMethod::Get && r@[1].path@ == "/bootstrap"@,
{
    let mut r: Vec<Route> = Vec::new();
    r.push(Route { method: HttpMethod::Post, path: "/workout" });
    r.push(Route { method: HttpMethod::Get, path: "/bootstrap" });
    r
}

} // verus!
