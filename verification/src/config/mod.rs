//! Channels: named layers of rules for generating a package's feature matrix.

use crate::error::ConfigError;
use crate::feature::matrix::FeatureMatrix;
use crate::feature::set::FeatureSet;
use vstd::prelude::*;
use vstd::string::*;

verus! {

/// A named layer of rules. A rule that is `None` is left to the channel named
/// "default".
#[derive(Debug)]
pub struct Channel {
    /// The name by which the channel is selected.
    pub name: String,
    /// If present, these features are the universe whose subsets make up the
    /// matrix, in place of what is derived from the package.
    pub seed: Option<FeatureSet>,
    /// All of these features are included in every feature set of the matrix.
    pub always_include: Option<FeatureSet>,
    /// A feature set that includes any of these is left out of the matrix.
    pub always_deny: Option<FeatureSet>,
    /// These sets are dropped from the matrix.
    pub skip: Option<FeatureMatrix>,
    /// Whether features whose names begin with a double underscore take part.
    pub include_hidden: Option<bool>,
    /// Whether every optional dependency takes part as a feature.
    pub include_all_optional: Option<bool>,
    /// Optional dependencies that take part as features whatever
    /// `include_all_optional` says.
    pub include_optional: Option<FeatureSet>,
}

/// What a channel says, in terms of the names of features.
pub struct ChannelView {
    pub name: Seq<char>,
    pub seed: Option<Set<Seq<char>>>,
    pub always_include: Option<Set<Seq<char>>>,
    pub always_deny: Option<Set<Seq<char>>>,
    pub skip: Option<Set<Set<Seq<char>>>>,
    pub include_hidden: Option<bool>,
    pub include_all_optional: Option<bool>,
    pub include_optional: Option<Set<Seq<char>>>,
}

/// The members of a feature set that may be absent.
pub open spec fn set_view(set: Option<FeatureSet>) -> Option<Set<Seq<char>>> {
    match set {
        Some(s) => Some(s@),
        None => None,
    }
}

/// The members of a matrix that may be absent.
pub open spec fn matrix_view(matrix: Option<FeatureMatrix>) -> Option<Set<Set<Seq<char>>>> {
    match matrix {
        Some(m) => Some(m@),
        None => None,
    }
}

impl View for Channel {
    type V = ChannelView;

    open spec fn view(&self) -> ChannelView {
        ChannelView {
            name: self.name@,
            seed: set_view(self.seed),
            always_include: set_view(self.always_include),
            always_deny: set_view(self.always_deny),
            skip: matrix_view(self.skip),
            include_hidden: self.include_hidden,
            include_all_optional: self.include_all_optional,
            include_optional: set_view(self.include_optional),
        }
    }
}

/// The name of the channel that every other channel falls back to.
pub open spec fn default_name() -> Seq<char> {
    seq!['d', 'e', 'f', 'a', 'u', 'l', 't']
}

/// The channel named "default" that states no rule.
pub open spec fn default_channel() -> ChannelView {
    ChannelView {
        name: default_name(),
        seed: None,
        always_include: None,
        always_deny: None,
        skip: None,
        include_hidden: None,
        include_all_optional: None,
        include_optional: None,
    }
}

/// The configuration of a package that supplies none of its own: the channel
/// named "default", which states no rule.
pub open spec fn default_config() -> Seq<ChannelView> {
    seq![default_channel()]
}

/// Position `i` holds the first channel that goes by `name`.
pub open spec fn is_first_named(channels: Seq<ChannelView>, name: Seq<char>, i: int) -> bool {
    &&& 0 <= i < channels.len()
    &&& channels[i].name == name
    &&& forall|j: int| 0 <= j < i ==> channels[j].name != name
}

/// Some channel goes by `name`.
pub open spec fn defines(channels: Seq<ChannelView>, name: Seq<char>) -> bool {
    exists|i: int| 0 <= i < channels.len() && #[trigger] channels[i].name == name
}

/// The first channel that goes by `name`.
pub open spec fn find_channel(channels: Seq<ChannelView>, name: Seq<char>) -> Option<
    ChannelView,
> {
    if defines(channels, name) {
        Some(channels[choose|i: int| is_first_named(channels, name, i)])
    } else {
        None
    }
}

/// The channel that is asked first for a rule of the channel `name`: the channel
/// of that name or, where there is none, the channel named "default".
pub open spec fn layer(channels: Seq<ChannelView>, name: Seq<char>) -> Option<ChannelView> {
    match find_channel(channels, name) {
        Some(c) => Some(c),
        None => find_channel(channels, default_name()),
    }
}

/// The rule `field` of the channel `name`: what its layer says or, where the
/// layer leaves the rule open, what the channel named "default" says. Fails
/// where the channel named "default" has to be asked and there is none.
pub open spec fn resolve<T>(
    channels: Seq<ChannelView>,
    name: Seq<char>,
    field: spec_fn(ChannelView) -> Option<T>,
) -> Result<Option<T>, ConfigError> {
    match layer(channels, name) {
        None => Err(ConfigError::MissingDefaultChannel),
        Some(c) => match field(c) {
            Some(v) => Ok(Some(v)),
            None => match find_channel(channels, default_name()) {
                None => Err(ConfigError::MissingDefaultChannel),
                Some(d) => Ok(field(d)),
            },
        },
    }
}

/// A resolved rule, with `zero` where no channel states it.
pub open spec fn or_zero<T>(resolved: Result<Option<T>, ConfigError>, zero: T) -> Result<
    T,
    ConfigError,
> {
    match resolved {
        Ok(Some(v)) => Ok(v),
        Ok(None) => Ok(zero),
        Err(e) => Err(e),
    }
}

/// The seed of the channel `name`, if one is configured.
pub open spec fn resolved_seed(channels: Seq<ChannelView>, name: Seq<char>) -> Result<
    Option<Set<Seq<char>>>,
    ConfigError,
> {
    resolve(channels, name, |c: ChannelView| c.seed)
}

/// The features that the channel `name` includes in every feature set.
pub open spec fn resolved_always_include(channels: Seq<ChannelView>, name: Seq<char>) -> Result<
    Set<Seq<char>>,
    ConfigError,
> {
    or_zero(resolve(channels, name, |c: ChannelView| c.always_include), Set::empty())
}

/// The features that the channel `name` denies.
pub open spec fn resolved_always_deny(channels: Seq<ChannelView>, name: Seq<char>) -> Result<
    Set<Seq<char>>,
    ConfigError,
> {
    or_zero(resolve(channels, name, |c: ChannelView| c.always_deny), Set::empty())
}

/// The feature sets that the channel `name` skips.
pub open spec fn resolved_skip(channels: Seq<ChannelView>, name: Seq<char>) -> Result<
    Set<Set<Seq<char>>>,
    ConfigError,
> {
    or_zero(resolve(channels, name, |c: ChannelView| c.skip), Set::empty())
}

/// Whether hidden features take part under the channel `name`.
pub open spec fn resolved_include_hidden(channels: Seq<ChannelView>, name: Seq<char>) -> Result<
    bool,
    ConfigError,
> {
    or_zero(resolve(channels, name, |c: ChannelView| c.include_hidden), false)
}

/// Whether every optional dependency takes part under the channel `name`.
pub open spec fn resolved_include_all_optional(
    channels: Seq<ChannelView>,
    name: Seq<char>,
) -> Result<bool, ConfigError> {
    or_zero(resolve(channels, name, |c: ChannelView| c.include_all_optional), false)
}

/// The optional dependencies that take part under the channel `name` in any case.
pub open spec fn resolved_include_optional(channels: Seq<ChannelView>, name: Seq<char>) -> Result<
    Set<Seq<char>>,
    ConfigError,
> {
    or_zero(resolve(channels, name, |c: ChannelView| c.include_optional), Set::empty())
}

/// What a resolved feature set stands for.
pub open spec fn set_result(r: Result<FeatureSet, ConfigError>) -> Result<
    Set<Seq<char>>,
    ConfigError,
> {
    match r {
        Ok(s) => Ok(s@),
        Err(e) => Err(e),
    }
}

/// The channels of `base` whose names `overriding` leaves free, in their order.
pub open spec fn unshadowed(base: Seq<ChannelView>, overriding: Seq<ChannelView>) -> Seq<
    ChannelView,
>
    decreases base.len(),
{
    if base.len() == 0 {
        Seq::empty()
    } else if defines(overriding, base.last().name) {
        unshadowed(base.drop_last(), overriding)
    } else {
        unshadowed(base.drop_last(), overriding).push(base.last())
    }
}

/// `overriding` merged on top of `base`: the channels of `overriding`, and
/// behind them those of `base` whose names `overriding` leaves free.
pub open spec fn merged(base: Seq<ChannelView>, overriding: Seq<ChannelView>) -> Seq<
    ChannelView,
> {
    overriding + unshadowed(base, overriding)
}

/// The channels of one package, in the order in which they were configured.
/// Where two channels go by one name, the first is the one that counts.
#[derive(Debug)]
pub struct Config {
    channel: Vec<Channel>,
}

impl View for Config {
    type V = Seq<ChannelView>;

    closed spec fn view(&self) -> Seq<ChannelView> {
        self.channel@.map_values(|c: Channel| c@)
    }
}

impl Config {
    /// The configuration with the given channels.
    pub fn new(channel: Vec<Channel>) -> (config: Self)
        ensures
            config@ == channel@.map_values(|c: Channel| c@),
    {
        Config { channel }
    }

    /// The channels.
    pub fn channel(&self) -> (channels: &Vec<Channel>)
        ensures
            channels@.map_values(|c: Channel| c@) == self@,
    {
        &self.channel
    }

    /// The channels, to change them.
    pub fn channel_mut(&mut self) -> (channels: &mut Vec<Channel>)
        ensures
            channels@.map_values(|c: Channel| c@) == old(self)@,
            final(self)@ == final(channels)@.map_values(|c: Channel| c@),
    {
        &mut self.channel
    }

    /// This configuration with `overriding` merged on top: a channel of
    /// `overriding` takes the place of the channel of its name, and the other
    /// channels stay.
    pub fn merge(&self, overriding: &Config) -> (config: Config)
        ensures
            config@ == merged(self@, overriding@),
    {
        let mut channels: Vec<Channel> = Vec::new();
        let mut i: usize = 0;
        while i < overriding.channel.len()
            invariant
                0 <= i <= overriding.channel.len(),
                overriding@.len() == overriding.channel.len(),
                channels@.map_values(|c: Channel| c@) =~= overriding@.take(i as int),
            decreases overriding.channel.len() - i,
        {
            let ghost so_far = channels@.map_values(|c: Channel| c@);
            channels.push(overriding.channel[i].clone());
            assert(channels@.map_values(|c: Channel| c@) =~= so_far.push(overriding@[i as int]));
            i = i + 1;
        }
        assert(overriding@.take(i as int) =~= overriding@);
        let mut k: usize = 0;
        while k < self.channel.len()
            invariant
                0 <= k <= self.channel.len(),
                self@.len() == self.channel.len(),
                channels@.map_values(|c: Channel| c@) =~= overriding@ + unshadowed(
                    self@.take(k as int),
                    overriding@,
                ),
            decreases self.channel.len() - k,
        {
            let ghost so_far = channels@.map_values(|c: Channel| c@);
            proof {
                let next = self@.take(k + 1);
                assert(next.drop_last() =~= self@.take(k as int));
                assert(next.last() == self@[k as int]);
            }
            if overriding.position(self.channel[k].name.as_str()).is_none() {
                channels.push(self.channel[k].clone());
                assert(channels@.map_values(|c: Channel| c@) =~= so_far.push(self@[k as int]));
            }
            k = k + 1;
        }
        assert(self@.take(k as int) =~= self@);
        Config { channel: channels }
    }

    /// The position of the first channel that goes by `name`.
    fn position(&self, name: &str) -> (found: Option<usize>)
        ensures
            match found {
                Some(i) => is_first_named(self@, name@, i as int),
                None => !defines(self@, name@),
            },
    {
        let wanted = name.to_owned();
        let mut i: usize = 0;
        while i < self.channel.len()
            invariant
                0 <= i <= self.channel.len(),
                self@.len() == self.channel.len(),
                wanted@ == name@,
                forall|j: int| 0 <= j < i ==> (#[trigger] self@[j]).name != name@,
            decreases self.channel.len() - i,
        {
            if self.channel[i].name == wanted {
                return Some(i);
            }
            i = i + 1;
        }
        None
    }

    /// The first channel that goes by `channel`.
    pub fn get_channel(&self, channel: &str) -> (r: Result<&Channel, ConfigError>)
        ensures
            match r {
                Ok(c) => find_channel(self@, channel@) == Some(c@),
                Err(e) => find_channel(self@, channel@) is None && (e matches ConfigError::UndefinedChannel(
                    name,
                ) && name@ == channel@),
            },
    {
        match self.position(channel) {
            Some(i) => {
                proof {
                    lemma_first_named_unique(self@, channel@, i as int);
                }
                Ok(&self.channel[i])
            },
            None => Err(ConfigError::UndefinedChannel(channel.to_owned())),
        }
    }

    /// The channel named "default".
    pub fn get_default(&self) -> (r: Result<&Channel, ConfigError>)
        ensures
            match r {
                Ok(c) => find_channel(self@, default_name()) == Some(c@),
                Err(e) => find_channel(self@, default_name()) is None && e
                    == ConfigError::MissingDefaultChannel,
            },
    {
        proof {
            reveal_strlit("default");
            assert("default"@ =~= default_name());
        }
        match self.position("default") {
            Some(i) => {
                proof {
                    lemma_first_named_unique(self@, default_name(), i as int);
                }
                Ok(&self.channel[i])
            },
            None => Err(ConfigError::MissingDefaultChannel),
        }
    }

    /// The channel that is asked first for a rule of `channel`.
    fn get_layer(&self, channel: &str) -> (r: Result<&Channel, ConfigError>)
        ensures
            match r {
                Ok(c) => layer(self@, channel@) == Some(c@),
                Err(e) => layer(self@, channel@) is None && e == ConfigError::MissingDefaultChannel,
            },
    {
        match self.get_channel(channel) {
            Ok(c) => Ok(c),
            Err(_) => self.get_default(),
        }
    }

    /// The seed of `channel`, if one is configured.
    pub fn seed(&self, channel: &str) -> (r: Result<Option<FeatureSet>, ConfigError>)
        ensures
            match r {
                Ok(seed) => resolved_seed(self@, channel@) == Ok::<_, ConfigError>(set_view(seed)),
                Err(e) => resolved_seed(self@, channel@) == Err::<Option<Set<Seq<char>>>, _>(e),
            },
    {
        let first = self.get_layer(channel)?;
        match &first.seed {
            Some(seed) => Ok(Some(seed.clone())),
            None => {
                let fallback = self.get_default()?;
                match &fallback.seed {
                    Some(seed) => Ok(Some(seed.clone())),
                    None => Ok(None),
                }
            },
        }
    }

    /// The features that `channel` includes in every feature set.
    pub fn always_include(&self, channel: &str) -> (r: Result<FeatureSet, ConfigError>)
        ensures
            set_result(r) == resolved_always_include(self@, channel@),
    {
        let first = self.get_layer(channel)?;
        match &first.always_include {
            Some(set) => Ok(set.clone()),
            None => {
                let fallback = self.get_default()?;
                match &fallback.always_include {
                    Some(set) => Ok(set.clone()),
                    None => Ok(FeatureSet::new()),
                }
            },
        }
    }

    /// The features that `channel` denies: no feature set of the matrix holds one.
    pub fn always_deny(&self, channel: &str) -> (r: Result<FeatureSet, ConfigError>)
        ensures
            set_result(r) == resolved_always_deny(self@, channel@),
    {
        let first = self.get_layer(channel)?;
        match &first.always_deny {
            Some(set) => Ok(set.clone()),
            None => {
                let fallback = self.get_default()?;
                match &fallback.always_deny {
                    Some(set) => Ok(set.clone()),
                    None => Ok(FeatureSet::new()),
                }
            },
        }
    }

    /// The feature sets that `channel` drops from the matrix.
    pub fn skip(&self, channel: &str) -> (r: Result<FeatureMatrix, ConfigError>)
        ensures
            match r {
                Ok(matrix) => resolved_skip(self@, channel@) == Ok::<_, ConfigError>(matrix@),
                Err(e) => resolved_skip(self@, channel@) == Err::<Set<Set<Seq<char>>>, _>(e),
            },
    {
        let first = self.get_layer(channel)?;
        match &first.skip {
            Some(matrix) => Ok(matrix.clone()),
            None => {
                let fallback = self.get_default()?;
                match &fallback.skip {
                    Some(matrix) => Ok(matrix.clone()),
                    None => Ok(FeatureMatrix::default()),
                }
            },
        }
    }

    /// Whether hidden features take part under `channel`.
    pub fn include_hidden(&self, channel: &str) -> (r: Result<bool, ConfigError>)
        ensures
            r == resolved_include_hidden(self@, channel@),
    {
        let first = self.get_layer(channel)?;
        match first.include_hidden {
            Some(flag) => Ok(flag),
            None => {
                let fallback = self.get_default()?;
                match fallback.include_hidden {
                    Some(flag) => Ok(flag),
                    None => Ok(false),
                }
            },
        }
    }

    /// Whether every optional dependency takes part as a feature under `channel`.
    pub fn include_all_optional(&self, channel: &str) -> (r: Result<bool, ConfigError>)
        ensures
            r == resolved_include_all_optional(self@, channel@),
    {
        let first = self.get_layer(channel)?;
        match first.include_all_optional {
            Some(flag) => Ok(flag),
            None => {
                let fallback = self.get_default()?;
                match fallback.include_all_optional {
                    Some(flag) => Ok(flag),
                    None => Ok(false),
                }
            },
        }
    }

    /// The optional dependencies that take part as features under `channel`,
    /// whatever `include_all_optional` says.
    pub fn include_optional(&self, channel: &str) -> (r: Result<FeatureSet, ConfigError>)
        ensures
            set_result(r) == resolved_include_optional(self@, channel@),
    {
        let first = self.get_layer(channel)?;
        match &first.include_optional {
            Some(set) => Ok(set.clone()),
            None => {
                let fallback = self.get_default()?;
                match &fallback.include_optional {
                    Some(set) => Ok(set.clone()),
                    None => Ok(FeatureSet::new()),
                }
            },
        }
    }
}

impl Clone for Channel {
    fn clone(&self) -> (copy: Self)
        ensures
            copy@ == self@,
    {
        Channel {
            name: self.name.clone(),
            seed: match &self.seed {
                Some(set) => Some(set.clone()),
                None => None,
            },
            always_include: match &self.always_include {
                Some(set) => Some(set.clone()),
                None => None,
            },
            always_deny: match &self.always_deny {
                Some(set) => Some(set.clone()),
                None => None,
            },
            skip: match &self.skip {
                Some(matrix) => Some(matrix.clone()),
                None => None,
            },
            include_hidden: self.include_hidden,
            include_all_optional: self.include_all_optional,
            include_optional: match &self.include_optional {
                Some(set) => Some(set.clone()),
                None => None,
            },
        }
    }
}

impl Channel {
    /// The name by which the channel is selected.
    pub fn name(&self) -> (name: &String)
        ensures
            *name == self.name,
    {
        &self.name
    }

    /// The universe that takes the place of the derived one, if the channel
    /// states one.
    pub fn seed(&self) -> (seed: &Option<FeatureSet>)
        ensures
            *seed == self.seed,
    {
        &self.seed
    }

    /// The features included in every feature set, if the channel states them.
    pub fn always_include(&self) -> (set: &Option<FeatureSet>)
        ensures
            *set == self.always_include,
    {
        &self.always_include
    }

    /// The denied features, if the channel states them.
    pub fn always_deny(&self) -> (set: &Option<FeatureSet>)
        ensures
            *set == self.always_deny,
    {
        &self.always_deny
    }

    /// The feature sets to drop, if the channel states them.
    pub fn skip(&self) -> (matrix: &Option<FeatureMatrix>)
        ensures
            *matrix == self.skip,
    {
        &self.skip
    }

    /// Whether hidden features take part, if the channel says so.
    pub fn include_hidden(&self) -> (flag: &Option<bool>)
        ensures
            *flag == self.include_hidden,
    {
        &self.include_hidden
    }

    /// Whether every optional dependency takes part, if the channel says so.
    pub fn include_all_optional(&self) -> (flag: &Option<bool>)
        ensures
            *flag == self.include_all_optional,
    {
        &self.include_all_optional
    }

    /// The optional dependencies that take part in any case, if the channel
    /// states them.
    pub fn include_optional(&self) -> (set: &Option<FeatureSet>)
        ensures
            *set == self.include_optional,
    {
        &self.include_optional
    }
}

impl Default for Channel {
    /// The channel without a name that states no rule.
    fn default() -> (channel: Self)
        ensures
            channel@ == (ChannelView { name: Seq::<char>::empty(), ..default_channel() }),
    {
        Channel {
            name: String::new(),
            seed: None,
            always_include: None,
            always_deny: None,
            skip: None,
            include_hidden: None,
            include_all_optional: None,
            include_optional: None,
        }
    }
}

impl Default for Config {
    /// The configuration of a package that supplies none of its own.
    fn default() -> (config: Self)
        ensures
            config@ == default_config(),
    {
        proof {
            reveal_strlit("default");
            assert("default"@ =~= default_name());
        }
        let mut channel = Channel::default();
        channel.name = "default".to_owned();
        let mut channels: Vec<Channel> = Vec::new();
        channels.push(channel);
        let config = Config { channel: channels };
        assert(config@ =~= default_config());
        config
    }
}

/// A channel that is not defined is resolved as the channel named "default"
/// is: where that one exists, every rule of the undefined channel is the rule
/// of "default".
pub proof fn lemma_undefined_channel_resolves_as_default<T>(
    channels: Seq<ChannelView>,
    name: Seq<char>,
    field: spec_fn(ChannelView) -> Option<T>,
)
    requires
        !defines(channels, name),
        defines(channels, default_name()),
    ensures
        resolve(channels, name, field) == resolve(channels, default_name(), field),
        resolve(channels, name, field) is Ok,
{
}

/// Where the channel named "default" exists, every rule of every channel can
/// be resolved.
pub proof fn lemma_default_resolves<T>(
    channels: Seq<ChannelView>,
    name: Seq<char>,
    field: spec_fn(ChannelView) -> Option<T>,
)
    requires
        defines(channels, default_name()),
    ensures
        resolve(channels, name, field) is Ok,
{
}

/// In a merged configuration a name stands for the channel that `overriding`
/// has of that name, and else for the one that `base` has.
pub proof fn lemma_merged_channel(
    base: Seq<ChannelView>,
    overriding: Seq<ChannelView>,
    name: Seq<char>,
)
    ensures
        find_channel(merged(base, overriding), name) == match find_channel(overriding, name) {
            Some(c) => Some(c),
            None => find_channel(base, name),
        },
{
    let all = merged(base, overriding);
    let rest = unshadowed(base, overriding);
    if defines(overriding, name) {
        lemma_defined_has_first(overriding, name);
        let i = choose|i: int| is_first_named(overriding, name, i);
        lemma_first_named_unique(overriding, name, i);
        assert(is_first_named(all, name, i)) by {
            assert(all[i] == overriding[i]);
            assert forall|j: int| 0 <= j < i implies all[j].name != name by {
                assert(all[j] == overriding[j]);
            }
        }
        lemma_first_named_unique(all, name, i);
    } else if defines(base, name) {
        lemma_defined_has_first(base, name);
        let i = choose|i: int| is_first_named(base, name, i);
        lemma_first_named_unique(base, name, i);
        let k = lemma_unshadowed_first(base, overriding, name, i);
        assert(is_first_named(all, name, overriding.len() + k)) by {
            assert(all[overriding.len() + k] == rest[k]);
            assert forall|j: int| 0 <= j < overriding.len() + k implies all[j].name != name by {
                if j < overriding.len() {
                    assert(all[j] == overriding[j]);
                } else {
                    assert(all[j] == rest[j - overriding.len()]);
                }
            }
        }
        lemma_first_named_unique(all, name, overriding.len() + k);
    } else {
        if defines(all, name) {
            let j = choose|j: int| 0 <= j < all.len() && #[trigger] all[j].name == name;
            if j < overriding.len() {
                assert(overriding[j].name == name);
            } else {
                lemma_unshadowed_members(base, overriding, j - overriding.len());
            }
        }
    }
}

/// Where a name is defined, some position is the first that holds it.
pub proof fn lemma_defined_has_first(channels: Seq<ChannelView>, name: Seq<char>)
    requires
        defines(channels, name),
    ensures
        exists|i: int| is_first_named(channels, name, i),
    decreases channels.len(),
{
    let k = choose|k: int| 0 <= k < channels.len() && #[trigger] channels[k].name == name;
    let shorter = channels.take(k);
    if defines(shorter, name) {
        let j = choose|j: int| 0 <= j < shorter.len() && #[trigger] shorter[j].name == name;
        lemma_defined_has_first(shorter, name);
        let i = choose|i: int| is_first_named(shorter, name, i);
        assert(is_first_named(channels, name, i)) by {
            assert(shorter[i] == channels[i]);
            assert forall|j: int| 0 <= j < i implies channels[j].name != name by {
                assert(shorter[j] == channels[j]);
            }
        }
    } else {
        assert(is_first_named(channels, name, k)) by {
            assert forall|j: int| 0 <= j < k implies channels[j].name != name by {
                assert(shorter[j] == channels[j]);
            }
        }
    }
}

/// Every channel that stays is a channel of `base` whose name is free.
proof fn lemma_unshadowed_members(base: Seq<ChannelView>, overriding: Seq<ChannelView>, k: int)
    requires
        0 <= k < unshadowed(base, overriding).len(),
    ensures
        !defines(overriding, unshadowed(base, overriding)[k].name),
        exists|i: int|
            0 <= i < base.len() && #[trigger] base[i] == unshadowed(base, overriding)[k],
    decreases base.len(),
{
    if base.len() > 0 {
        let shorter = base.drop_last();
        let before = unshadowed(shorter, overriding);
        if k < before.len() {
            lemma_unshadowed_members(shorter, overriding, k);
            let i = choose|i: int| 0 <= i < shorter.len() && #[trigger] shorter[i] == before[k];
            assert(base[i] == unshadowed(base, overriding)[k]);
        } else {
            assert(base[base.len() - 1] == unshadowed(base, overriding)[k]);
        }
    }
}

/// The first channel of a free name stays the first of its name.
proof fn lemma_unshadowed_first(
    base: Seq<ChannelView>,
    overriding: Seq<ChannelView>,
    name: Seq<char>,
    i: int,
) -> (k: int)
    requires
        is_first_named(base, name, i),
        !defines(overriding, name),
    ensures
        is_first_named(unshadowed(base, overriding), name, k),
        unshadowed(base, overriding)[k] == base[i],
    decreases base.len(),
{
    let shorter = base.drop_last();
    let before = unshadowed(shorter, overriding);
    let rest = unshadowed(base, overriding);
    if i == base.len() - 1 {
        assert(rest == before.push(base.last()));
        let k = before.len() as int;
        assert forall|j: int| 0 <= j < k implies rest[j].name != name by {
            lemma_unshadowed_members(shorter, overriding, j);
            let p = choose|p: int| 0 <= p < shorter.len() && #[trigger] shorter[p] == before[j];
            assert(base[p].name != name);
        }
        k
    } else {
        assert(is_first_named(shorter, name, i)) by {
            assert(shorter[i] == base[i]);
            assert forall|j: int| 0 <= j < i implies shorter[j].name != name by {
                assert(shorter[j] == base[j]);
            }
        }
        let k = lemma_unshadowed_first(shorter, overriding, name, i);
        assert(rest[k] == before[k]);
        assert forall|j: int| 0 <= j < k implies rest[j].name != name by {
            assert(rest[j] == before[j]);
        }
        k
    }
}

/// Merging on top of a configuration that has the channel named "default"
/// gives a configuration that has it, so that every rule can be resolved.
pub proof fn lemma_merged_keeps_default(base: Seq<ChannelView>, overriding: Seq<ChannelView>)
    requires
        defines(base, default_name()),
    ensures
        defines(merged(base, overriding), default_name()),
{
    lemma_merged_channel(base, overriding, default_name());
}

/// Only one position holds the first channel of a name.
pub proof fn lemma_first_named_unique(channels: Seq<ChannelView>, name: Seq<char>, i: int)
    requires
        is_first_named(channels, name, i),
    ensures
        find_channel(channels, name) == Some(channels[i]),
{
    assert(channels[i].name == name);
    assert(defines(channels, name));
    let k = choose|k: int| is_first_named(channels, name, k);
    if k < i {
        assert(channels[k].name != name);
    } else if i < k {
        assert(channels[i].name != name);
    }
}

} // verus!
