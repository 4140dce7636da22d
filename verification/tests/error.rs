use cargo_matrix::error::{ChunkArgumentError, ConfigError, Error, UsageKind};
use cargo_matrix::text::to_decimal;
use cargo_matrix::{clap_or_error, success};

#[test]
fn success_works() {
    assert_eq!(0, success(()));
}

#[test]
fn clap_or_error_is_error() {
    assert_eq!(1, clap_or_error(&Error::Other("test".to_string())));
}

#[test]
fn clap_or_error_is_help() {
    let error = Error::Usage(UsageKind::DisplayHelp, "help".to_string());
    assert_eq!(0, clap_or_error(&error));
}

#[test]
fn clap_or_error_is_version() {
    let error = Error::Usage(UsageKind::DisplayVersion, "1.0".to_string());
    assert_eq!(0, clap_or_error(&error));
}

#[test]
fn clap_or_error_is_other_clap_error() {
    let error = Error::Usage(UsageKind::InvalidValue, "Some failure case".to_string());
    assert_eq!(1, clap_or_error(&error));
}

#[test]
fn every_other_usage_kind_exits_with_one() {
    let kinds = vec![
        UsageKind::InvalidValue,
        UsageKind::UnknownArgument,
        UsageKind::InvalidSubcommand,
        UsageKind::NoEquals,
        UsageKind::ValueValidation,
        UsageKind::TooManyValues,
        UsageKind::TooFewValues,
        UsageKind::WrongNumberOfValues,
        UsageKind::ArgumentConflict,
        UsageKind::MissingRequiredArgument,
        UsageKind::MissingSubcommand,
        UsageKind::InvalidUtf8,
        UsageKind::DisplayHelpOnMissingArgumentOrSubcommand,
        UsageKind::Io,
        UsageKind::Format,
        UsageKind::Other,
    ];
    for kind in kinds {
        assert_eq!(1, clap_or_error(&Error::Usage(kind, String::new())));
    }
}

#[test]
fn failures_exit_with_one() {
    assert_eq!(1, clap_or_error(&Error::Config(ConfigError::MissingDefaultChannel)));
    assert_eq!(
        1,
        clap_or_error(&Error::ChunkArgument(ChunkArgumentError::ZeroChunkCount))
    );
    assert_eq!(1, clap_or_error(&Error::Metadata("no manifest".to_string())));
    assert_eq!(1, clap_or_error(&Error::Spawn("cargo not found".to_string())));
    assert_eq!(1, clap_or_error(&Error::TaskFailure(Some(101))));
    assert_eq!(1, clap_or_error(&Error::TaskFailure(None)));
}

#[test]
fn config_error_messages() {
    assert_eq!(
        "channel 'default' not defined",
        ConfigError::MissingDefaultChannel.message()
    );
    assert_eq!(
        "channel 'nightly' not defined",
        ConfigError::UndefinedChannel("nightly".to_string()).message()
    );
    assert_eq!(
        "expected a list",
        ConfigError::UnparsableOverride("expected a list".to_string()).message()
    );
}

#[test]
fn chunk_argument_error_messages() {
    assert_eq!(
        "chunk argument cannot be 0",
        ChunkArgumentError::ZeroChunkIndex.message()
    );
    assert_eq!(
        "num_chunks argument cannot be 0",
        ChunkArgumentError::ZeroChunkCount.message()
    );
    assert_eq!(
        "chunk must be less than or equal to num_chunks",
        ChunkArgumentError::ChunkIndexOutOfRange.message()
    );
}

#[test]
fn error_messages() {
    assert_eq!(
        "unexpected argument",
        Error::Usage(UsageKind::UnknownArgument, "unexpected argument".to_string()).message()
    );
    assert_eq!(
        "channel 'default' not defined",
        Error::Config(ConfigError::MissingDefaultChannel).message()
    );
    assert_eq!(
        "chunk argument cannot be 0",
        Error::ChunkArgument(ChunkArgumentError::ZeroChunkIndex).message()
    );
    assert_eq!("no manifest", Error::Metadata("no manifest".to_string()).message());
    assert_eq!("no cargo", Error::Spawn("no cargo".to_string()).message());
    assert_eq!("task failed: 101", Error::TaskFailure(Some(101)).message());
    assert_eq!("task failed: -9", Error::TaskFailure(Some(-9)).message());
    assert_eq!("task failed: no exit code", Error::TaskFailure(None).message());
    assert_eq!("test", Error::Other("test".to_string()).message());
}

#[test]
fn decimal_rendering() {
    for value in [
        0,
        1,
        -1,
        9,
        10,
        11,
        99,
        100,
        101,
        -10,
        -100,
        12345,
        -67890,
        1_000_000_007,
        i32::MAX,
        i32::MIN,
        i32::MIN + 1,
    ] {
        assert_eq!(value.to_string(), to_decimal(value));
    }
    assert_eq!("2147483647", to_decimal(i32::MAX));
    assert_eq!("-2147483648", to_decimal(i32::MIN));
}
