//! Plain data records for the reconciliation engine.
//!
//! Identifiers are carried as `u128` values (the numeric form of a UUID),
//! timestamps as `i64` values (a point in time as a signed offset from a
//! fixed epoch), and weights as an exact decimal given by an integer
//! mantissa and a scale. All ordering and identity decisions of the engine
//! are made on these plain values.

use vstd::prelude::*;

verus! {

/// An exact decimal number: the value is `mantissa / 10^scale`.
///
/// The engine never computes with weights; it only carries them from the
/// records it reads to the records it produces.
#[derive(Debug, Clone, Copy, PartialEq, Eq)]
pub struct DecimalValue {
    pub mantissa: i128,
    pub scale: u32,
}

/// The identity of a group of sets: an exercise together with an optional
/// per-exercise profile. A set without a profile belongs to the default
/// variant of the exercise, which is a key of its own, distinct from every
/// concrete profile.
#[derive(Debug, Clone, Copy, PartialEq, Eq, Structural)]
pub struct GroupKey {
    pub exercise_id: u128,
    pub profile_id: Option<u128>,
}

/// A single recorded set of one exercise within one workout.
#[derive(Debug, Clone, PartialEq, Eq)]
pub struct UserSet {
    pub id: u128,
    pub user_id: u128,
    pub exercise_id: u128,
    pub workout_id: u128,
    pub profile_id: Option<u128>,
    pub reps: i32,
    pub weight: DecimalValue,
    pub weight_unit: String,
    pub created_at: i64,
    pub side: Option<String>,
}

/// An ordered group of sets sharing one `GroupKey`, derived from a single
/// workout's set list.
#[derive(Debug, Clone, PartialEq, Eq)]
pub struct WorkoutExerciseGroup {
    pub exercise_id: u128,
    pub profile_id: Option<u128>,
    pub is_unilateral: bool,
    pub sets: Vec<UserSet>,
}

/// One row of a user's full set history: the fields of the set that the
/// baseline projection keeps, together with the set's own `created_at` and
/// the `end_time` of the workout that owns the set.
#[derive(Debug, Clone, PartialEq, Eq)]
pub struct PreviousSetRow {
    pub exercise_id: u128,
    pub profile_id: Option<u128>,
    pub reps: i32,
    pub weight: DecimalValue,
    pub weight_unit: String,
    pub side: Option<String>,
    pub created_at: i64,
    pub end_time: i64,
}

/// A previous-set baseline: the values of one surviving historical set,
/// stripped of identity and time fields.
#[derive(Debug, Clone, PartialEq, Eq)]
pub struct BootstrapPreviousSet {
    pub reps: i32,
    pub weight: DecimalValue,
    pub weight_unit: String,
    pub side: Option<String>,
}

/// The baselines the resolver keeps for one `GroupKey`: the sets of the
/// key's most recent workout(s), ordered ascending by `created_at`.
#[derive(Debug, Clone, PartialEq, Eq)]
pub struct PreviousSetsEntry {
    pub key: GroupKey,
    pub sets: Vec<BootstrapPreviousSet>,
}

/// A record that belongs to a `GroupKey`.
pub trait Keyed {
    /// The key the record is partitioned under.
    spec fn key(&self) -> GroupKey;
}

impl Keyed for UserSet {
    open spec fn key(&self) -> GroupKey {
        GroupKey { exercise_id: self.exercise_id, profile_id: self.profile_id }
    }
}

impl Keyed for PreviousSetRow {
    open spec fn key(&self) -> GroupKey {
        GroupKey { exercise_id: self.exercise_id, profile_id: self.profile_id }
    }
}

impl UserSet {
    /// The key this set is grouped under.
    pub fn group_key(&self) -> (k: GroupKey)
        ensures
            k == self.key(),
    {
        GroupKey { exercise_id: self.exercise_id, profile_id: self.profile_id }
    }
}

impl PreviousSetRow {
    /// The key this row is partitioned under.
    pub fn group_key(&self) -> (k: GroupKey)
        ensures
            k == self.key(),
    {
        GroupKey { exercise_id: self.exercise_id, profile_id: self.profile_id }
    }
}

/// The baseline projection of one history row: identity and time fields are
/// dropped; reps, weight, weight unit and side are kept.
pub open spec fn baseline_of(r: PreviousSetRow) -> BootstrapPreviousSet {
    BootstrapPreviousSet { reps: r.reps, weight: r.weight, weight_unit: r.weight_unit, side: r.side }
}

impl PreviousSetRow {
    /// Project this row to its baseline, dropping identity and time fields.
    pub fn into_baseline(self) -> (b: BootstrapPreviousSet)
        ensures
            b == baseline_of(self),
    {
        BootstrapPreviousSet {
            reps: self.reps,
            weight: self.weight,
            weight_unit: self.weight_unit,
            side: self.side,
        }
    }
}

} // verus!
