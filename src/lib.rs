//! Service monitoring core: a registry of hosts and their services, a parser
//! for service-manager output, a store of status snapshots with a
//! latest-per-service query, and the collection logic that ties them together.

pub mod collector;
pub mod config;
pub mod hosts;
pub mod requests;
pub mod service;
pub mod store;
