//! Guild-scoped store for game suggestions and player/external-account
//! mappings, with the set-intersection query and snapshot codec built on it.

pub mod catalog;
pub mod errors;
pub mod games;
pub mod general;
pub mod players;
pub mod polls;
pub mod snapshot;
pub mod store;
pub mod suggest;
pub mod text;
