//! The bootstrap snapshot: the simple-CRUD records fetched alongside, and
//! the assembly of the response envelope around the resolved previous-set
//! baselines.

use vstd::prelude::*;

use crate::gyms::Gym;
use crate::keys::{key_string_of, render_group_key};
use crate::previous::{baselines_for, resolve};
use crate::grouping::first_seen_keys;
use crate::records::{BootstrapPreviousSet, PreviousSetRow, PreviousSetsEntry};

verus! {

/// A user-defined variant of how an exercise is performed.
#[derive(Debug, Clone, PartialEq, Eq)]
pub struct ExerciseProfile {
    pub id: u128,
    pub user_id: u128,
    pub exercise_id: u128,
    pub name: String,
    pub created_at: i64,
}

/// A gym profile mapping as the bootstrap response carries it.
#[derive(Debug, Clone, Copy, PartialEq, Eq)]
pub struct BootstrapGymProfileMapping {
    pub gym_id: u128,
    pub exercise_id: u128,
    pub profile_id: u128,
}

/// All user data for the initial app bootstrap. The previous-sets mapping
/// is sparse: it has one entry per exercise/profile key that occurs in the
/// user's history, keyed by the key's string form, and no others.
#[derive(Debug, Clone, PartialEq, Eq)]
pub struct BootstrapResponse {
    pub gyms: Vec<Gym>,
    pub profiles: Vec<ExerciseProfile>,
    pub gym_profile_mappings: Vec<BootstrapGymProfileMapping>,
    pub previous_sets: Vec<(String, Vec<BootstrapPreviousSet>)>,
}

/// Render resolved entries as the external mapping: each key in its string
/// form, each value the key's baselines, entry order kept.
pub fn render_previous_sets(entries: Vec<PreviousSetsEntry>) -> (out: Vec<
    (String, Vec<BootstrapPreviousSet>),
>)
    ensures
        out@.len() == entries@.len(),
        forall|i: int|
            0 <= i < out@.len() ==> (#[trigger] out@[i]).0@ == key_string_of(entries@[i].key)
                && out@[i].1@ == entries@[i].sets@,
{
    let ghost all = entries@;
    let mut entries = entries;
    let mut out: Vec<(String, Vec<BootstrapPreviousSet>)> = Vec::new();
    let ghost i: int = 0;
    while entries.len() > 0
        invariant
            0 <= i <= all.len(),
            entries@ == all.skip(i),
            out@.len() == i,
            forall|m: int|
                0 <= m < i ==> (#[trigger] out@[m]).0@ == key_string_of(all[m].key)
                    && out@[m].1@ == all[m].sets@,
        decreases entries@.len(),
    {
        let e = entries.remove(0);
        proof {
            assert(e == all[i]);
            assert(all.skip(i).remove(0) =~= all.skip(i + 1));
        }
        let key = render_group_key(&e.key);
        out.push((key, e.sets));
        proof {
            i = i + 1;
        }
    }
    out
}

/// Assemble the bootstrap response: the fetched gyms, profiles and gym
/// profile mappings pass through unchanged, and the user's set history is
/// resolved to the previous-sets mapping.
pub fn build_bootstrap_response(
    gyms: Vec<Gym>,
    profiles: Vec<ExerciseProfile>,
    gym_profile_mappings: Vec<BootstrapGymProfileMapping>,
    history: Vec<PreviousSetRow>,
) -> (r: BootstrapResponse)
    ensures
        r.gyms@ == gyms@,
        r.profiles@ == profiles@,
        r.gym_profile_mappings@ == gym_profile_mappings@,
        r.previous_sets@.len() == first_seen_keys(history@).len(),
        forall|i: int|
            0 <= i < r.previous_sets@.len() ==> (#[trigger] r.previous_sets@[i]).0@
                == key_string_of(first_seen_keys(history@)[i]) && r.previous_sets@[i].1@
                == baselines_for(history@, first_seen_keys(history@)[i]),
{
    let entries = resolve(history);
    let previous_sets = render_previous_sets(entries);
    BootstrapResponse { gyms, profiles, gym_profile_mappings, previous_sets }
}

} // verus!
