//! A verified model of a morning elevator rush: workers arrive in the lobby of an
//! office building, elevators carry them to their floors, and the simulation
//! records when each worker clocks in.

pub mod config;
pub mod elevator;
pub mod worker;
pub mod hyper_simulation;
pub mod rules;
pub mod lemmas;
pub mod invariants;
pub mod sort;
pub mod simulation;
pub mod liveness;
pub mod safety;
pub mod shape;
pub mod conserve;
pub mod boarding;
pub mod study;
pub mod binding;
pub mod motion;
