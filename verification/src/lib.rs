//! Core of a discrete-tick labor-market simulation.
//!
//! A population of agents seeks and fills jobs. Each job is a list of roles
//! with seat bounds and eligibility constraints; a vacancy board advertises
//! roles whose minimum seat count is unmet; unemployed agents apply to live
//! adverts; a hiring resolver commits hires under capacity and per-tick batch
//! limits. Every tick runs the stages in a fixed order: expire stale adverts,
//! reconcile the board against vacancies, collect applications, resolve hires.

pub mod agents;
pub mod graph;
pub mod gregslist;
pub mod hiring_manager;
pub mod inventory;
pub mod jobs;
pub mod seq_util;
pub mod simulation;

pub use agents::Age;
pub use agents::Agent;
pub use agents::Roster;
pub use graph::Graph;
pub use gregslist::Advert;
pub use gregslist::Gregslist;
pub use gregslist::GregslistConfig;
pub use gregslist::VacancyDirty;
pub use hiring_manager::ApplicationInbox;
pub use hiring_manager::HiringConfig;
pub use hiring_manager::Resume;
pub use inventory::Inventory;
pub use jobs::Constraint;
pub use jobs::Job;
pub use jobs::JobBuilder;
pub use jobs::JobRegistry;
pub use jobs::RoleSpec;
pub use simulation::Simulation;
