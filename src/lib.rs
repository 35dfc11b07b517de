//! Reuse of compiled build units across invocations. A package-level resolve
//! is expanded into a graph of build units, each unit gets a fingerprint of
//! its inputs and of its dependencies' fingerprints, and a dependency-first
//! walk restores every unit whose fingerprint a content-addressed repository
//! holds and builds the others, publishing what it builds.
pub mod fingerprint;
pub mod graph;
pub mod install;
pub mod repo;
pub mod resolve;
pub mod scheduler;
pub mod unpack;
