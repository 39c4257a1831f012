//! What can go wrong around the translation, and how bad it is.

use vstd::prelude::*;

verus! {

/// The failures that a run can meet.
#[derive(Clone, Debug, PartialEq, Eq)]
pub enum Failure {
    /// The command that dumps the source settings is missing or failed.
    ExternalToolFailure { command: String },
    /// The dump of the source settings is not what was expected.
    MalformedSourceData,
    /// A file of the configuration tree cannot be read.
    UnreadableConfigFile { path: String },
    /// The root configuration file does not exist.
    MissingRootConfig { path: String },
    /// The root configuration or the override file cannot be written.
    WriteFailure { path: String },
}

impl Failure {
    /// Whether the failure ends the run. A file of the tree that cannot be
    /// read never does: it counts as empty. A missing root configuration
    /// does only when changes are to be applied. The others always do.
    pub open spec fn fatal(self, applying: bool) -> bool {
        match self {
            Failure::UnreadableConfigFile { .. } => false,
            Failure::MissingRootConfig { .. } => applying,
            _ => true,
        }
    }

    /// Whether the failure ends the run.
    pub fn is_fatal(&self, applying: bool) -> (r: bool)
        ensures
            r == self.fatal(applying),
    {
        match self {
            Failure::UnreadableConfigFile { .. } => false,
            Failure::MissingRootConfig { .. } => applying,
            _ => true,
        }
    }

    /// What the failure is about: the command or the path, if it has one.
    pub fn subject(&self) -> (r: Option<&String>)
        ensures
            match *self {
                Failure::ExternalToolFailure { command } => r == Some(&command),
                Failure::MalformedSourceData => r is None,
                Failure::UnreadableConfigFile { path } => r == Some(&path),
                Failure::MissingRootConfig { path } => r == Some(&path),
                Failure::WriteFailure { path } => r == Some(&path),
            },
    {
        match self {
            Failure::ExternalToolFailure { command } => Some(command),
            Failure::MalformedSourceData => None,
            Failure::UnreadableConfigFile { path } => Some(path),
            Failure::MissingRootConfig { path } => Some(path),
            Failure::WriteFailure { path } => Some(path),
        }
    }
}

} // verus!
