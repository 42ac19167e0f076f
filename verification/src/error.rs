//! Errors of the library.
use std::path::PathBuf;
use vstd::prelude::*;

verus! {

/// Error that can occur when accessing configuration.
#[derive(Debug, PartialEq, Eq)]
pub enum ConfigFailure {
    /// No variable of that name.
    NotFound(String),
    /// A message for the user.
    Message(String),
    /// An error from elsewhere, such as the `config` crate, by its message.
    Foreign(String),
}

/// A configuration error, by its text.
pub enum ConfigFailureText {
    NotFound(Seq<char>),
    Message(Seq<char>),
    Foreign(Seq<char>),
}

impl View for ConfigFailure {
    type V = ConfigFailureText;

    open spec fn view(&self) -> ConfigFailureText {
        match self {
            ConfigFailure::NotFound(text) => ConfigFailureText::NotFound(text@),
            ConfigFailure::Message(text) => ConfigFailureText::Message(text@),
            ConfigFailure::Foreign(text) => ConfigFailureText::Foreign(text@),
        }
    }
}

/// Error that can occur when reading the configuration of the environment.
#[derive(Debug, PartialEq, Eq)]
pub enum ConfigEnvError {
    /// A configuration could not be read.
    ConfigReadError(ConfigFailure),
    /// Both paths exist. The configurations should be consolidated in one of
    /// them.
    AmbiguousSource(PathBuf, PathBuf),
    /// A configuration file could not be created, for the given reason.
    ConfigCreateError(String),
}

/// Error that stops a command.
#[derive(Debug, PartialEq, Eq)]
pub enum CommandFailure {
    /// An error of the user, with its cause if there is one.
    User { message: String, cause: Option<String> },
    /// An error in the configuration.
    Config(ConfigFailure),
}

/// An error that stops a command, by its text.
pub enum CommandFailureText {
    User { message: Seq<char>, cause: Option<Seq<char>> },
    Config(ConfigFailureText),
}

impl View for CommandFailure {
    type V = CommandFailureText;

    open spec fn view(&self) -> CommandFailureText {
        match self {
            CommandFailure::User { message, cause } => CommandFailureText::User {
                message: message@,
                cause: match cause {
                    Some(cause) => Some(cause@),
                    None => None,
                },
            },
            CommandFailure::Config(failure) => CommandFailureText::Config(failure@),
        }
    }
}

/// An error is told by its texts.
pub proof fn law_error_is_told_by_its_text(
    text: String,
    reason: String,
    failure: ConfigFailure,
)
    ensures
        ConfigFailure::NotFound(text)@ == ConfigFailureText::NotFound(text@),
        ConfigFailure::Message(text)@ == ConfigFailureText::Message(text@),
        ConfigFailure::Foreign(text)@ == ConfigFailureText::Foreign(text@),
        CommandFailure::Config(failure)@ == CommandFailureText::Config(failure@),
        (CommandFailure::User { message: text, cause: Some(reason) })@ == (
        CommandFailureText::User { message: text@, cause: Some(reason@) }),
        (CommandFailure::User { message: text, cause: None })@ == (CommandFailureText::User {
            message: text@,
            cause: None,
        }),
{
}

} // verus!
