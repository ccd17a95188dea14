//! Records of the gym CRUD area. Persistence of these records is plain
//! key-based storage owned by the storage collaborator; the engine only
//! fixes their shapes and the area's route table.

use vstd::prelude::*;

use crate::routes::{HttpMethod, Route};

verus! {

/// A gym a user trains at.
#[derive(Debug, Clone, PartialEq, Eq)]
pub struct Gym {
    pub id: u128,
    pub user_id: u128,
    pub name: String,
    pub created_at: i64,
}

/// Request body for creating a gym.
#[derive(Debug, Clone, PartialEq, Eq)]
pub struct CreateGymBody {
    pub name: String,
}

/// Request body for renaming a gym.
#[derive(Debug, Clone, PartialEq, Eq)]
pub struct UpdateGymBody {
    pub name: String,
}

/// A stored mapping from an exercise at a gym to the profile preferred
/// there.
#[derive(Debug, Clone, Copy, PartialEq, Eq)]
pub struct GymProfileMapping {
    pub id: u128,
    pub user_id: u128,
    pub gym_id: u128,
    pub exercise_id: u128,
    pub profile_id: u128,
    pub updated_at: i64,
}

/// Request body for setting the preferred profile of an exercise at a gym.
#[derive(Debug, Clone, Copy, PartialEq, Eq)]
pub struct SetGymProfileMappingBody {
    pub exercise_id: u128,
    pub profile_id: u128,
}

/// The exercise/profile pair a mapping read or write answers with.
#[derive(Debug, Clone, Copy, PartialEq, Eq)]
pub struct GymProfileMappingResponse {
    pub exercise_id: u128,
    pub profile_id: u128,
}

/// Request body for selecting the user's current gym, or none.
#[derive(Debug, Clone, Copy, PartialEq, Eq)]
pub struct SetCurrentGymBody {
    pub gym_id: Option<u128>,
}

/// The routes of the gym area: list, create, update and delete a gym, and
/// read and write a gym's profile mappings.
pub fn router() -> (r: Vec<Route>)
    ensures
        r@.len() == 6,
        r@[0].method == HttpMethod::Get && r@[0].path@ == ""@,
        r@[1].method == HttpMethod::Post && r@[1].path@ == ""@,
        r@[2].method == HttpMethod::Put && r@[2].path@ == "/{gym_id}"@,
        r@[3].method == HttpMethod::Delete && r@[3].path@ == "/{gym_id}"@,
        r@[4].method == HttpMethod::Get && r@[4].path@ == "/{gym_id}/profile-mappings"@,
        r@[5].method == HttpMethod::Put && r@[5].path@ == "/{gym_id}/profile-mappings"@,
{
    let mut r: Vec<Route> = Vec::new();
    r.push(Route { method: HttpMethod::Get, path: "" });
    r.push(Route { method: HttpMethod::Post, path: "" });
    r.push(Route { method: HttpMethod::Put, path: "/{gym_id}" });
    r.push(Route { method: HttpMethod::Delete, path: "/{gym_id}" });
    r.push(Route { method: HttpMethod::Get, path: "/{gym_id}/profile-mappings" });
    r.push(Route { method: HttpMethod::Put, path: "/{gym_id}/profile-mappings" });
    r
}

} // verus!
