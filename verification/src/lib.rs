//! Core of the Supergravity coding agent: the agent loop, its tools and their sandbox, the wire
//! formats of the model providers, approvals, and what the desktop application decides.
pub mod agent;
pub mod approvals;
pub mod bridge;
pub mod config;
pub mod error;
pub mod ids;
pub mod json;
pub mod mentions;
pub mod providers;
pub mod store;
pub mod text;
pub mod tools;
pub mod types;
