//! A minimal verified entity-component substrate: a `World` that stores
//! component values per kind and entity, a `Scheduler` that runs registered
//! startup and update callbacks in order until a stop signal, and an `App`
//! facade composing the two. A small demonstration component and its systems
//! round the crate off.

pub mod world;
pub mod sched;
pub mod facade;
pub mod demo;
