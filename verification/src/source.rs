//! Where a configuration comes from.
use vstd::prelude::*;

verus! {

/// Source of a configuration layer. The variants stand in the order of their
/// precedence, the lowest first.
#[derive(Clone, Copy, Debug, PartialEq, Eq, Structural)]
pub enum ConfigSource {
    /// Default values.
    Default,
    /// Base environment variables.
    EnvBase,
    /// User configuration files.
    User,
    /// Repo configuration files.
    Repo,
    /// Override environment variables.
    EnvOverrides,
    /// Command-line arguments.
    CommandArg,
}

impl ConfigSource {
    /// The precedence of the source: a source of a higher rank overrides one of
    /// a lower rank.
    pub open spec fn spec_rank(self) -> int {
        match self {
            ConfigSource::Default => 0,
            ConfigSource::EnvBase => 1,
            ConfigSource::User => 2,
            ConfigSource::Repo => 3,
            ConfigSource::EnvOverrides => 4,
            ConfigSource::CommandArg => 5,
        }
    }

    /// The precedence of the source.
    pub fn rank(self) -> (rank: u8)
        ensures
            rank == self.spec_rank(),
    {
        match self {
            ConfigSource::Default => 0,
            ConfigSource::EnvBase => 1,
            ConfigSource::User => 2,
            ConfigSource::Repo => 3,
            ConfigSource::EnvOverrides => 4,
            ConfigSource::CommandArg => 5,
        }
    }
}

} // verus!
