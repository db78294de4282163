//! A dependency-version resolver for a mod ecosystem: it parses requirement
//! specs, discovers transitive requirements against an installed-state
//! snapshot and a registry of releases, reconciles competing version demands
//! by taking the maximum, retracts requirements a superseded release pulled
//! in, and classifies the resolved set into an install/update/conflict plan.
#![verifier::loop_isolation(false)]
pub mod factorio_api;
pub mod instance;
pub mod mod_info;
pub mod utils;
