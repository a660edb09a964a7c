//! Capabilities and the execution of effects after a commit.

pub mod caps;
pub mod exec;
