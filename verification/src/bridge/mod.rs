//! What the commands of the user interface decide and compute.
pub mod agent_runner;
pub mod commands;
