//! Reversible directory synchronisation and directory-link substitution,
//! expressed as verified planning over observed file-system state.

pub mod discovery;
pub mod error;
pub mod launch;
pub mod link;
pub mod manifest;
pub mod order;
pub mod paths;
pub mod relocate;
pub mod sync;
pub mod walk;
pub mod world;
