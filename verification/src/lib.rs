//! Workout-history reconciliation engine for a personal fitness-tracking
//! backend: grouping a workout's sets by exercise and profile, and
//! resolving the most recent baseline sets for every exercise/profile pair
//! a user has trained.

pub mod bootstrap;
pub mod grouping;
pub mod gyms;
pub mod keys;
pub mod previous;
pub mod records;
pub mod routes;
pub mod sync;
pub mod workouts;
