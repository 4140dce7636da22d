use cargo_matrix::config::{Channel, Config};
use cargo_matrix::error::ConfigError;
use cargo_matrix::feature::{Feature, FeatureMatrix, FeatureSet};

fn set_of(names: &[&str]) -> FeatureSet {
    FeatureSet::from_iter(names.iter().map(|name| Feature::new(name)).collect())
}

fn matrix_of(sets: &[&[&str]]) -> FeatureMatrix {
    let mut matrix = FeatureMatrix::default();
    for set in sets {
        matrix.insert(set_of(set));
    }
    matrix
}

fn channel(name: &str) -> Channel {
    let mut channel = Channel::default();
    channel.name = name.to_string();
    channel
}

fn full_channel(name: &str, tag: &str) -> Channel {
    Channel {
        name: name.to_string(),
        seed: Some(set_of(&[tag, "seed"])),
        always_include: Some(set_of(&[tag, "always"])),
        always_deny: Some(set_of(&[tag, "never"])),
        skip: Some(matrix_of(&[&[tag], &[tag, "skipped"]])),
        include_hidden: Some(true),
        include_all_optional: Some(true),
        include_optional: Some(set_of(&[tag, "optional"])),
    }
}

#[test]
fn default_config_has_the_default_channel_without_rules() {
    let config = Config::default();
    assert_eq!(1, config.channel().len());
    let default = config.get_default().unwrap();
    assert_eq!("default", default.name);
    assert!(default.seed.is_none());
    assert!(default.always_include.is_none());
    assert!(default.always_deny.is_none());
    assert!(default.skip.is_none());
    assert!(default.include_hidden.is_none());
    assert!(default.include_all_optional.is_none());
    assert!(default.include_optional.is_none());
}

#[test]
fn default_channel_has_no_name_and_no_rules() {
    let channel = Channel::default();
    assert_eq!("", channel.name);
    assert!(channel.seed.is_none());
    assert!(channel.skip.is_none());
    assert!(channel.include_hidden.is_none());
}

#[test]
fn default_config_resolves_to_zero_values() {
    let config = Config::default();
    for name in ["default", "nightly", ""] {
        assert_eq!(Ok(None), config.seed(name));
        assert_eq!(Ok(FeatureSet::new()), config.always_include(name));
        assert_eq!(Ok(FeatureSet::new()), config.always_deny(name));
        assert_eq!(Ok(FeatureMatrix::default()), config.skip(name));
        assert_eq!(Ok(false), config.include_hidden(name));
        assert_eq!(Ok(false), config.include_all_optional(name));
        assert_eq!(Ok(FeatureSet::new()), config.include_optional(name));
    }
}

#[test]
fn get_channel_finds_the_first_of_a_name() {
    let mut first = channel("nightly");
    first.include_hidden = Some(true);
    let mut second = channel("nightly");
    second.include_hidden = Some(false);
    let config = Config::new(vec![channel("default"), first, second]);
    assert_eq!(
        Some(true),
        config.get_channel("nightly").unwrap().include_hidden
    );
    assert_eq!("default", config.get_channel("default").unwrap().name);
    assert_eq!(Ok(true), config.include_hidden("nightly"));
}

#[test]
fn get_channel_fails_on_an_undefined_name() {
    let config = Config::new(vec![channel("default")]);
    assert_eq!(
        ConfigError::UndefinedChannel("nightly".to_string()),
        config.get_channel("nightly").unwrap_err()
    );
    let empty = Config::new(Vec::new());
    assert_eq!(
        ConfigError::UndefinedChannel("default".to_string()),
        empty.get_channel("default").unwrap_err()
    );
    assert_eq!(
        ConfigError::MissingDefaultChannel,
        empty.get_default().unwrap_err()
    );
}

#[test]
fn named_channel_overrides_default() {
    let config = Config::new(vec![
        full_channel("default", "d"),
        full_channel("nightly", "n"),
    ]);
    assert_eq!(Ok(Some(set_of(&["n", "seed"]))), config.seed("nightly"));
    assert_eq!(Ok(set_of(&["n", "always"])), config.always_include("nightly"));
    assert_eq!(Ok(set_of(&["n", "never"])), config.always_deny("nightly"));
    assert_eq!(
        Ok(matrix_of(&[&["n"], &["n", "skipped"]])),
        config.skip("nightly")
    );
    assert_eq!(
        Ok(set_of(&["n", "optional"])),
        config.include_optional("nightly")
    );
    assert_eq!(Ok(Some(set_of(&["d", "seed"]))), config.seed("default"));
    assert_eq!(Ok(set_of(&["d", "never"])), config.always_deny("default"));
}

#[test]
fn unset_fields_fall_back_to_default() {
    let mut nightly = channel("nightly");
    nightly.always_deny = Some(set_of(&["unstable"]));
    nightly.include_hidden = Some(false);
    let config = Config::new(vec![nightly, full_channel("default", "d")]);
    assert_eq!(Ok(Some(set_of(&["d", "seed"]))), config.seed("nightly"));
    assert_eq!(Ok(set_of(&["d", "always"])), config.always_include("nightly"));
    assert_eq!(Ok(set_of(&["unstable"])), config.always_deny("nightly"));
    assert_eq!(
        Ok(matrix_of(&[&["d"], &["d", "skipped"]])),
        config.skip("nightly")
    );
    assert_eq!(Ok(false), config.include_hidden("nightly"));
    assert_eq!(Ok(true), config.include_all_optional("nightly"));
    assert_eq!(
        Ok(set_of(&["d", "optional"])),
        config.include_optional("nightly")
    );
}

#[test]
fn undefined_channel_resolves_as_default() {
    let config = Config::new(vec![
        full_channel("nightly", "n"),
        full_channel("default", "d"),
    ]);
    assert_eq!(config.seed("default"), config.seed("beta"));
    assert_eq!(config.always_include("default"), config.always_include("beta"));
    assert_eq!(config.always_deny("default"), config.always_deny("beta"));
    assert_eq!(config.skip("default"), config.skip("beta"));
    assert_eq!(config.include_hidden("default"), config.include_hidden("beta"));
    assert_eq!(
        config.include_all_optional("default"),
        config.include_all_optional("beta")
    );
    assert_eq!(
        config.include_optional("default"),
        config.include_optional("beta")
    );
    assert_eq!(Ok(Some(set_of(&["d", "seed"]))), config.seed("beta"));
    assert_eq!(Ok(true), config.include_hidden("beta"));
}

#[test]
fn missing_default_fails_where_it_is_needed() {
    let mut nightly = channel("nightly");
    nightly.always_deny = Some(set_of(&["unstable"]));
    nightly.include_all_optional = Some(true);
    let config = Config::new(vec![nightly]);
    let missing = ConfigError::MissingDefaultChannel;
    assert_eq!(Ok(set_of(&["unstable"])), config.always_deny("nightly"));
    assert_eq!(Ok(true), config.include_all_optional("nightly"));
    assert_eq!(Err(ConfigError::MissingDefaultChannel), config.seed("nightly"));
    assert_eq!(missing, config.always_include("nightly").unwrap_err());
    assert_eq!(missing, config.skip("nightly").unwrap_err());
    assert_eq!(Err(ConfigError::MissingDefaultChannel), config.include_hidden("nightly"));
    assert_eq!(missing, config.include_optional("nightly").unwrap_err());
    assert_eq!(missing, config.always_deny("beta").unwrap_err());
    assert_eq!(missing, config.always_deny("default").unwrap_err());
    assert_eq!(
        Err(ConfigError::MissingDefaultChannel),
        config.include_all_optional("beta")
    );
}

#[test]
fn channel_getters_hand_out_the_fields() {
    let channel = full_channel("nightly", "n");
    assert_eq!("nightly", channel.name());
    assert_eq!(&Some(set_of(&["n", "seed"])), channel.seed());
    assert_eq!(&Some(set_of(&["n", "always"])), channel.always_include());
    assert_eq!(&Some(set_of(&["n", "never"])), channel.always_deny());
    assert_eq!(&Some(matrix_of(&[&["n"], &["n", "skipped"]])), channel.skip());
    assert_eq!(&Some(true), channel.include_hidden());
    assert_eq!(&Some(true), channel.include_all_optional());
    assert_eq!(&Some(set_of(&["n", "optional"])), channel.include_optional());
    let copy = channel.clone();
    assert_eq!(channel.name, copy.name);
    assert_eq!(channel.seed, copy.seed);
    assert_eq!(channel.skip, copy.skip);
    assert_eq!(channel.include_optional, copy.include_optional);
}

#[test]
fn channels_can_be_changed_in_place() {
    let mut config = Config::default();
    config.channel_mut().push(channel("nightly"));
    config.channel_mut()[0].include_hidden = Some(true);
    assert_eq!(2, config.channel().len());
    assert_eq!("nightly", config.get_channel("nightly").unwrap().name);
    assert_eq!(Ok(true), config.include_hidden("nightly"));
}

#[test]
fn merge_lets_the_override_win_by_name() {
    let mut base_default = channel("default");
    base_default.always_deny = Some(set_of(&["base"]));
    let mut base_stable = channel("stable");
    base_stable.include_hidden = Some(true);
    let base = Config::new(vec![base_default, base_stable]);
    let mut over_default = channel("default");
    over_default.always_include = Some(set_of(&["std"]));
    let mut over_nightly = channel("nightly");
    over_nightly.always_deny = Some(set_of(&["unstable"]));
    let overriding = Config::new(vec![over_nightly, over_default]);
    let merged = base.merge(&overriding);
    let names: Vec<&str> = merged.channel().iter().map(|c| c.name.as_str()).collect();
    assert_eq!(vec!["nightly", "default", "stable"], names);
    assert_eq!(Ok(FeatureSet::new()), merged.always_deny("default"));
    assert_eq!(Ok(set_of(&["std"])), merged.always_include("default"));
    assert_eq!(Ok(set_of(&["unstable"])), merged.always_deny("nightly"));
    assert_eq!(Ok(true), merged.include_hidden("stable"));
}

#[test]
fn merge_on_the_default_config_keeps_a_default_channel() {
    let mut nightly = channel("nightly");
    nightly.always_deny = Some(set_of(&["unstable"]));
    let merged = Config::default().merge(&Config::new(vec![nightly]));
    let names: Vec<&str> = merged.channel().iter().map(|c| c.name.as_str()).collect();
    assert_eq!(vec!["nightly", "default"], names);
    assert_eq!(Ok(None), merged.seed("nightly"));
    assert_eq!(Ok(set_of(&["unstable"])), merged.always_deny("nightly"));
    assert_eq!(Ok(FeatureSet::new()), merged.always_deny("other"));
    let same = Config::default().merge(&Config::new(Vec::new()));
    assert_eq!(1, same.channel().len());
    assert_eq!("default", same.channel()[0].name);
}
