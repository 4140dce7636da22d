//! The ways in which a run can fail, and the exit code of each.

use crate::text::{decimal, to_decimal};
use vstd::prelude::*;
use vstd::string::*;

verus! {

/// A configuration that cannot be used.
#[derive(Debug, PartialEq, Eq)]
pub enum ConfigError {
    /// No channel of this name is defined.
    UndefinedChannel(String),
    /// A rule had to be taken from the channel named "default", and there is none.
    MissingDefaultChannel,
    /// The override that a package supplies could not be read; the text says why.
    UnparsableOverride(String),
}

/// Chunk arguments that select no chunk.
#[derive(Debug, PartialEq, Eq, Clone, Copy)]
pub enum ChunkArgumentError {
    /// The chunk index is 0; chunks are counted from 1.
    ZeroChunkIndex,
    /// The number of chunks is 0.
    ZeroChunkCount,
    /// The chunk index is greater than the number of chunks.
    ChunkIndexOutOfRange,
}

/// How argument handling ended when it did not yield arguments to run with.
#[derive(Debug, PartialEq, Eq, Clone, Copy)]
pub enum UsageKind {
    /// The help text was asked for.
    DisplayHelp,
    /// The version was asked for.
    DisplayVersion,
    /// An argument has a value that is not accepted.
    InvalidValue,
    /// An argument is not known.
    UnknownArgument,
    /// A subcommand is not known.
    InvalidSubcommand,
    /// An argument that takes its value after an equals sign came without one.
    NoEquals,
    /// A value did not pass its validation.
    ValueValidation,
    /// An argument came with more values than it takes.
    TooManyValues,
    /// An argument came with fewer values than it takes.
    TooFewValues,
    /// An argument came with another number of values than it takes.
    WrongNumberOfValues,
    /// Two arguments exclude each other.
    ArgumentConflict,
    /// A required argument is missing.
    MissingRequiredArgument,
    /// A required subcommand is missing.
    MissingSubcommand,
    /// An argument is not valid UTF-8.
    InvalidUtf8,
    /// The help text is shown because an argument or subcommand is missing.
    DisplayHelpOnMissingArgumentOrSubcommand,
    /// Reading or writing failed.
    Io,
    /// Formatting failed.
    Format,
    /// Argument handling failed in some other way.
    Other,
}

/// Why a run ended early.
#[derive(Debug, PartialEq, Eq)]
pub enum Error {
    /// Argument handling ended the run; the text is what it has to say.
    Usage(UsageKind, String),
    /// The configuration cannot be used.
    Config(ConfigError),
    /// The chunk arguments select no chunk.
    ChunkArgument(ChunkArgumentError),
    /// The workspace's metadata could not be had; the text says why.
    Metadata(String),
    /// The build tool could not be started; the text says why.
    Spawn(String),
    /// The build tool ran and failed, with this exit code if it left one.
    TaskFailure(Option<i32>),
    /// Any other failure; the text says what failed.
    Other(String),
}

/// The message that tells of a configuration error.
pub open spec fn config_error_text(error: ConfigError) -> Seq<char> {
    match error {
        ConfigError::UndefinedChannel(name) => "channel '"@ + name@ + "' not defined"@,
        ConfigError::MissingDefaultChannel => "channel 'default' not defined"@,
        ConfigError::UnparsableOverride(reason) => reason@,
    }
}

/// The message that tells of wrong chunk arguments.
pub open spec fn chunk_argument_error_text(error: ChunkArgumentError) -> Seq<char> {
    match error {
        ChunkArgumentError::ZeroChunkIndex => "chunk argument cannot be 0"@,
        ChunkArgumentError::ZeroChunkCount => "num_chunks argument cannot be 0"@,
        ChunkArgumentError::ChunkIndexOutOfRange =>
            "chunk must be less than or equal to num_chunks"@,
    }
}

/// The message that tells of a failed task.
pub open spec fn task_failure_text(code: Option<i32>) -> Seq<char> {
    match code {
        Some(code) => "task failed: "@ + decimal(code as int),
        None => "task failed: no exit code"@,
    }
}

/// The message that tells of `error`.
pub open spec fn error_text(error: Error) -> Seq<char> {
    match error {
        Error::Usage(_, text) => text@,
        Error::Config(e) => config_error_text(e),
        Error::ChunkArgument(e) => chunk_argument_error_text(e),
        Error::Metadata(reason) => reason@,
        Error::Spawn(reason) => reason@,
        Error::TaskFailure(code) => task_failure_text(code),
        Error::Other(text) => text@,
    }
}

impl ConfigError {
    /// The message shown to the user.
    pub fn message(&self) -> (text: String)
        ensures
            text@ == config_error_text(*self),
    {
        match self {
            ConfigError::UndefinedChannel(name) => {
                let mut text = "channel '".to_owned();
                text.append(name.as_str());
                text.append("' not defined");
                text
            },
            ConfigError::MissingDefaultChannel => "channel 'default' not defined".to_owned(),
            ConfigError::UnparsableOverride(reason) => reason.clone(),
        }
    }
}

impl ChunkArgumentError {
    /// The message shown to the user.
    pub fn message(&self) -> (text: String)
        ensures
            text@ == chunk_argument_error_text(*self),
    {
        match self {
            ChunkArgumentError::ZeroChunkIndex => "chunk argument cannot be 0".to_owned(),
            ChunkArgumentError::ZeroChunkCount => "num_chunks argument cannot be 0".to_owned(),
            ChunkArgumentError::ChunkIndexOutOfRange =>
                "chunk must be less than or equal to num_chunks".to_owned(),
        }
    }
}

impl Error {
    /// The message shown to the user.
    pub fn message(&self) -> (text: String)
        ensures
            text@ == error_text(*self),
    {
        match self {
            Error::Usage(_, text) => text.clone(),
            Error::Config(e) => e.message(),
            Error::ChunkArgument(e) => e.message(),
            Error::Metadata(reason) => reason.clone(),
            Error::Spawn(reason) => reason.clone(),
            Error::TaskFailure(Some(code)) => {
                let mut text = "task failed: ".to_owned();
                let code = to_decimal(*code);
                text.append(code.as_str());
                text
            },
            Error::TaskFailure(None) => "task failed: no exit code".to_owned(),
            Error::Other(text) => text.clone(),
        }
    }
}

/// The exit code of a run that ended with `error`: 0 where the user asked for
/// the help text or the version, 1 for every failure.
pub open spec fn exit_code(error: Error) -> int {
    match error {
        Error::Usage(UsageKind::DisplayHelp, _) => 0,
        Error::Usage(UsageKind::DisplayVersion, _) => 0,
        _ => 1,
    }
}

/// The process exit code of a run that ended with `error`.
pub fn clap_or_error(error: &Error) -> (code: i32)
    ensures
        code == exit_code(*error),
{
    match error {
        Error::Usage(UsageKind::DisplayHelp, _) => 0,
        Error::Usage(UsageKind::DisplayVersion, _) => 0,
        _ => 1,
    }
}

/// The process exit code of a run that completed without error.
pub fn success(_unit: ()) -> (code: i32)
    ensures
        code == 0,
{
    0
}

} // verus!
