//! Generating the matrix of a package: the universe of features that take
//! part, its subsets, and the rules that decide which of them are built.

use super::matrix::{lemma_matrix_rows_unique, FeatureMatrix};
use super::powerset::{
    enumerates_selections, is_selection, lemma_selection_is_subset, lemma_subset_is_selection,
    mask_of, next_subset, pending_subsets, powerset, selection,
};
use super::set::FeatureSet;
use super::Feature;
use crate::config::{
    default_config, default_name, defines, is_first_named, lemma_first_named_unique,
    resolved_always_deny, resolved_always_include, resolved_include_all_optional,
    resolved_include_hidden, resolved_include_optional, resolved_seed, resolved_skip,
    set_result, ChannelView, Config,
};
use crate::error::ConfigError;
use crate::package::{
    declaration_views, declared, declares, dependency_views, distinct_names, lemma_declared_at,
    Declaration, DependencyView, Package, PackageView,
};
use crate::text::{dependency_marker, hidden_marker, texts};
use vstd::prelude::*;
use vstd::string::*;

verus! {

/// The name of the feature that stands for what a package enables by default.
/// It never takes part in a derived universe.
pub open spec fn default_feature() -> Seq<char> {
    seq!['d', 'e', 'f', 'a', 'u', 'l', 't']
}

/// The activation that turns on the dependency `name`.
pub open spec fn dependency_reference(name: Seq<char>) -> Seq<char> {
    dependency_marker() + name
}

/// Whether `name` is an implicit feature: one that does nothing but turn on the
/// optional dependency of its own name, and whose dependency no other feature
/// turns on.
pub open spec fn is_implicit(features: Map<Seq<char>, Seq<Seq<char>>>, name: Seq<char>) -> bool {
    &&& features.contains_key(name)
    &&& features[name] == seq![dependency_reference(name)]
    &&& forall|other: Seq<char>| #[trigger]
        features.contains_key(other) && other != name ==> !features[other].contains(
            dependency_reference(name),
        )
}

/// The implicit features of a package.
pub open spec fn implicit_features(features: Map<Seq<char>, Seq<Seq<char>>>) -> Set<Seq<char>> {
    Set::new(|name: Seq<char>| is_implicit(features, name))
}

/// Whether the declared feature `name` takes part in the derived universe.
pub open spec fn is_candidate(
    features: Map<Seq<char>, Seq<Seq<char>>>,
    included: Set<Seq<char>>,
    denied: Set<Seq<char>>,
    include_hidden: bool,
    name: Seq<char>,
) -> bool {
    &&& features.contains_key(name)
    &&& name != default_feature()
    &&& !is_implicit(features, name)
    &&& !denied.contains(name)
    &&& !included.contains(name)
    &&& (include_hidden || !hidden_marker().is_prefix_of(name))
}

/// Whether `name` is the feature that stands for an optional dependency.
pub open spec fn names_optional_dependency(
    dependencies: Seq<DependencyView>,
    name: Seq<char>,
) -> bool {
    exists|i: int|
        0 <= i < dependencies.len() && (#[trigger] dependencies[i]).optional
            && dependencies[i].feature_name() == name
}

/// The universe that is derived from a package where no seed is configured:
/// its declared features but for "default", the implicit, the denied, the
/// always included and, unless `include_hidden`, the hidden ones; with
/// `include_all_optional`, its optional dependencies; and `include_optional`.
pub open spec fn derived_universe(
    package: PackageView,
    included: Set<Seq<char>>,
    denied: Set<Seq<char>>,
    include_hidden: bool,
    include_all_optional: bool,
    include_optional: Set<Seq<char>>,
) -> Set<Seq<char>> {
    Set::new(
        |name: Seq<char>|
            {
                ||| is_candidate(package.features, included, denied, include_hidden, name)
                ||| (include_all_optional && names_optional_dependency(
                    package.dependencies,
                    name,
                ))
                ||| include_optional.contains(name)
            },
    )
}

/// A resolved rule, or `zero` where it could not be resolved.
pub open spec fn rule_or<T>(rule: Result<T, ConfigError>, zero: T) -> T {
    match rule {
        Ok(v) => v,
        Err(_) => zero,
    }
}

/// The universe of features whose subsets make up the matrix of `package`
/// under the channel `name`: the configured seed, or else what is derived from
/// the package.
pub open spec fn universe(package: PackageView, channels: Seq<ChannelView>, name: Seq<char>) -> Result<
    Set<Seq<char>>,
    ConfigError,
> {
    match resolved_seed(channels, name) {
        Err(e) => Err(e),
        Ok(Some(seed)) => Ok(seed),
        Ok(None) => Ok(
            derived_universe(
                package,
                rule_or(resolved_always_include(channels, name), Set::empty()),
                rule_or(resolved_always_deny(channels, name), Set::empty()),
                rule_or(resolved_include_hidden(channels, name), false),
                rule_or(resolved_include_all_optional(channels, name), false),
                rule_or(resolved_include_optional(channels, name), Set::empty()),
            ),
        ),
    }
}

/// What becomes of one subset of the universe: `included` is added to it, and
/// the result is built unless it holds a denied feature or is a skipped set.
pub open spec fn admitted(
    subset: Set<Seq<char>>,
    included: Set<Seq<char>>,
    denied: Set<Seq<char>>,
    skipped: Set<Set<Seq<char>>>,
) -> Option<Set<Seq<char>>> {
    let set = subset.union(included);
    if set.disjoint(denied) && !skipped.contains(set) {
        Some(set)
    } else {
        None
    }
}

/// The matrix over `universe`: what is admitted of its subsets.
pub open spec fn matrix_of(
    universe: Set<Seq<char>>,
    included: Set<Seq<char>>,
    denied: Set<Seq<char>>,
    skipped: Set<Set<Seq<char>>>,
) -> Set<Set<Seq<char>>> {
    Set::new(
        |set: Set<Seq<char>>|
            exists|subset: Set<Seq<char>>|
                subset.subset_of(universe) && #[trigger] admitted(subset, included, denied, skipped)
                    == Some(set),
    )
}

/// The matrix of `package` under the channel `name`. Fails where a rule has to
/// be taken from the channel named "default" and there is none.
pub open spec fn generate(package: PackageView, channels: Seq<ChannelView>, name: Seq<char>) -> Result<
    Set<Set<Seq<char>>>,
    ConfigError,
> {
    match (
        resolved_always_deny(channels, name),
        resolved_skip(channels, name),
        resolved_always_include(channels, name),
        universe(package, channels, name),
    ) {
        (Ok(denied), Ok(skipped), Ok(included), Ok(universe)) => Ok(
            matrix_of(universe, included, denied, skipped),
        ),
        _ => Err(ConfigError::MissingDefaultChannel),
    }
}

/// What a generated matrix stands for.
pub open spec fn matrix_result(r: Result<FeatureMatrix, ConfigError>) -> Result<
    Set<Set<Seq<char>>>,
    ConfigError,
> {
    match r {
        Ok(m) => Ok(m@),
        Err(e) => Err(e),
    }
}

/// Whether `entry` is among `activations`.
fn mentions(activations: &Vec<String>, entry: &String) -> (r: bool)
    ensures
        r == texts(activations@).contains(entry@),
{
    let mut i: usize = 0;
    while i < activations.len()
        invariant
            0 <= i <= activations.len(),
            forall|j: int| 0 <= j < i ==> texts(activations@)[j] != entry@,
        decreases activations.len() - i,
    {
        if activations[i] == *entry {
            assert(texts(activations@)[i as int] == entry@);
            return true;
        }
        i = i + 1;
    }
    false
}

/// Whether the declaration at position `i` declares an implicit feature.
fn declares_implicit(declarations: &[Declaration], i: usize) -> (r: bool)
    requires
        i < declarations@.len(),
        distinct_names(declaration_views(declarations@)),
    ensures
        r == is_implicit(
            declared(declaration_views(declarations@)),
            declaration_views(declarations@)[i as int].name,
        ),
{
    let ghost views = declaration_views(declarations@);
    let ghost features = declared(views);
    let ghost name = views[i as int].name;
    proof {
        lemma_declared_at(views, i as int);
    }
    let declaration = &declarations[i];
    assert(features[name] == texts(declaration.activations@));
    if declaration.activations.len() != 1 {
        assert(features[name].len() != 1);
        return false;
    }
    proof {
        reveal_strlit("dep:");
        assert("dep:"@ =~= dependency_marker());
    }
    let mut reference = "dep:".to_owned();
    reference.append(declaration.name.as_str());
    assert(reference@ == dependency_reference(name));
    if !(declaration.activations[0] == reference) {
        assert(features[name][0] != dependency_reference(name));
        return false;
    }
    assert(features[name] =~= seq![dependency_reference(name)]);
    let mut j: usize = 0;
    while j < declarations.len()
        invariant
            0 <= j <= declarations@.len(),
            i < declarations@.len(),
            views == declaration_views(declarations@),
            distinct_names(views),
            features == declared(views),
            name == views[i as int].name,
            features[name] == seq![dependency_reference(name)],
            reference@ == dependency_reference(name),
            forall|k: int|
                0 <= k < j && k != i ==> !(#[trigger] views[k]).activations.contains(
                    dependency_reference(name),
                ),
        decreases declarations@.len() - j,
    {
        if j != i && mentions(&declarations[j].activations, &reference) {
            proof {
                lemma_declared_at(views, j as int);
                if j < i {
                    assert(views[j as int].name != views[i as int].name);
                } else {
                    assert(views[i as int].name != views[j as int].name);
                }
                assert(features.contains_key(views[j as int].name));
            }
            return false;
        }
        j = j + 1;
    }
    proof {
        assert forall|other: Seq<char>| #[trigger]
            features.contains_key(other) && other != name implies !features[other].contains(
            dependency_reference(name),
        ) by {
            let k = choose|k: int| 0 <= k < views.len() && (#[trigger] views[k]).name == other;
            lemma_declared_at(views, k);
        }
    }
    true
}

impl FeatureMatrix {
    /// The implicit features of `package`.
    pub fn find_implicits(package: &Package) -> (implicit: FeatureSet)
        ensures
            implicit@ == implicit_features(package@.features),
    {
        let declarations = package.features();
        let ghost views = declaration_views(declarations@);
        let ghost features = package@.features;
        let mut implicit = FeatureSet::new();
        let mut i: usize = 0;
        while i < declarations.len()
            invariant
                0 <= i <= declarations@.len(),
                views == declaration_views(declarations@),
                distinct_names(views),
                declared(views) == features,
                forall|name: Seq<char>| #[trigger]
                    implicit@.contains(name) <==> (is_implicit(features, name) && exists|j: int|
                        0 <= j < i && (#[trigger] views[j]).name == name),
            decreases declarations@.len() - i,
        {
            let ghost before = implicit@;
            let found = declares_implicit(declarations, i);
            if found {
                let _ = implicit.insert(Feature::new(declarations[i].name.as_str()));
            }
            proof {
                assert forall|name: Seq<char>| #[trigger]
                    implicit@.contains(name) <==> (is_implicit(features, name) && exists|j: int|
                        0 <= j < i + 1 && (#[trigger] views[j]).name == name) by {
                    if before.contains(name) {
                        let j = choose|j: int| 0 <= j < i && (#[trigger] views[j]).name == name;
                        assert(0 <= j < i + 1 && views[j].name == name);
                    }
                    if found && name == views[i as int].name {
                        assert(0 <= i < i + 1 && views[i as int].name == name);
                    }
                    if is_implicit(features, name) && exists|j: int|
                        0 <= j < i + 1 && (#[trigger] views[j]).name == name {
                        let j = choose|j: int|
                            0 <= j < i + 1 && (#[trigger] views[j]).name == name;
                        if j < i {
                            assert(before.contains(name));
                        }
                    }
                }
            }
            i = i + 1;
        }
        proof {
            assert forall|name: Seq<char>| is_implicit(features, name) implies implicit@.contains(
                name,
            ) by {
                assert(declares(views, name));
            }
            assert(implicit@ =~= implicit_features(features));
        }
        implicit
    }

    /// The universe of features whose subsets make up the matrix of `package`
    /// under `channel`.
    pub fn extract_seed(package: &Package, config: &Config, channel: &str) -> (r: Result<
        FeatureSet,
        ConfigError,
    >)
        ensures
            set_result(r) == universe(package@, config@, channel@),
    {
        let seed = config.seed(channel)?;
        if let Some(seed) = seed {
            return Ok(seed);
        }
        let implicit = Self::find_implicits(package);
        let denied = config.always_deny(channel)?;
        let included = config.always_include(channel)?;
        let include_hidden = match config.include_hidden(channel) {
            Ok(flag) => flag,
            Err(_) => false,
        };
        let include_all_optional = match config.include_all_optional(channel) {
            Ok(flag) => flag,
            Err(_) => false,
        };
        let include_optional = config.include_optional(channel)?;
        let ghost features = package@.features;
        let ghost target = derived_universe(
            package@,
            included@,
            denied@,
            include_hidden,
            include_all_optional,
            include_optional@,
        );

        let declarations = package.features();
        let ghost views = declaration_views(declarations@);
        proof {
            reveal_strlit("default");
            assert("default"@ =~= default_feature());
        }
        let default_name = "default".to_owned();
        let mut set = FeatureSet::new();
        let mut i: usize = 0;
        while i < declarations.len()
            invariant
                0 <= i <= declarations@.len(),
                views == declaration_views(declarations@),
                distinct_names(views),
                declared(views) == features,
                default_name@ == default_feature(),
                implicit@ == implicit_features(features),
                forall|name: Seq<char>| #[trigger]
                    set@.contains(name) <==> (is_candidate(
                        features,
                        included@,
                        denied@,
                        include_hidden,
                        name,
                    ) && exists|j: int| 0 <= j < i && (#[trigger] views[j]).name == name),
            decreases declarations@.len() - i,
        {
            proof {
                lemma_declared_at(views, i as int);
            }
            let feature = Feature::new(declarations[i].name.as_str());
            let ghost before = set@;
            let taken = !(declarations[i].name == default_name) && !implicit.contains(&feature)
                && !denied.contains(&feature) && !included.contains(&feature) && (include_hidden
                || !feature.is_hidden());
            if taken {
                let _ = set.insert(feature);
            }
            proof {
                assert(taken == is_candidate(
                    features,
                    included@,
                    denied@,
                    include_hidden,
                    views[i as int].name,
                ));
                assert forall|name: Seq<char>| #[trigger]
                    set@.contains(name) <==> (is_candidate(
                        features,
                        included@,
                        denied@,
                        include_hidden,
                        name,
                    ) && exists|j: int| 0 <= j < i + 1 && (#[trigger] views[j]).name == name) by {
                    if before.contains(name) {
                        let j = choose|j: int| 0 <= j < i && (#[trigger] views[j]).name == name;
                        assert(0 <= j < i + 1 && views[j].name == name);
                    }
                    if taken && name == views[i as int].name {
                        assert(0 <= i < i + 1 && views[i as int].name == name);
                    }
                    if is_candidate(features, included@, denied@, include_hidden, name)
                        && exists|j: int| 0 <= j < i + 1 && (#[trigger] views[j]).name == name {
                        let j = choose|j: int|
                            0 <= j < i + 1 && (#[trigger] views[j]).name == name;
                        if j < i {
                            assert(before.contains(name));
                        }
                    }
                }
            }
            i = i + 1;
        }
        let ghost candidates = set@;
        assert forall|name: Seq<char>| #[trigger]
            candidates.contains(name) <==> is_candidate(
                features,
                included@,
                denied@,
                include_hidden,
                name,
            ) by {
            if is_candidate(features, included@, denied@, include_hidden, name) {
                assert(declares(views, name));
            }
        }

        if include_all_optional {
            let dependencies = package.dependencies();
            let ghost listed = dependency_views(dependencies@);
            let mut k: usize = 0;
            while k < dependencies.len()
                invariant
                    0 <= k <= dependencies@.len(),
                    listed == dependency_views(dependencies@),
                    forall|name: Seq<char>| #[trigger]
                        set@.contains(name) <==> (candidates.contains(name) || exists|j: int|
                            0 <= j < k && (#[trigger] listed[j]).optional
                                && listed[j].feature_name() == name),
                decreases dependencies@.len() - k,
            {
                let ghost before = set@;
                if dependencies[k].optional {
                    let name = match &dependencies[k].rename {
                        Some(rename) => rename.clone(),
                        None => dependencies[k].name.clone(),
                    };
                    assert(name@ == listed[k as int].feature_name());
                    let _ = set.insert(Feature(name));
                }
                proof {
                    assert forall|name: Seq<char>| #[trigger]
                        set@.contains(name) <==> (candidates.contains(name) || exists|j: int|
                            0 <= j < k + 1 && (#[trigger] listed[j]).optional
                                && listed[j].feature_name() == name) by {
                        if before.contains(name) && !candidates.contains(name) {
                            let j = choose|j: int|
                                0 <= j < k && (#[trigger] listed[j]).optional
                                    && listed[j].feature_name() == name;
                            assert(0 <= j < k + 1 && listed[j].optional);
                        }
                        if listed[k as int].optional && name == listed[k as int].feature_name() {
                            assert(0 <= k < k + 1 && listed[k as int].optional);
                        }
                        if exists|j: int|
                            0 <= j < k + 1 && (#[trigger] listed[j]).optional
                                && listed[j].feature_name() == name {
                            let j = choose|j: int|
                                0 <= j < k + 1 && (#[trigger] listed[j]).optional
                                    && listed[j].feature_name() == name;
                            if j < k {
                                assert(before.contains(name));
                            }
                        }
                    }
                }
                k = k + 1;
            }
            assert forall|name: Seq<char>| #[trigger]
                set@.contains(name) <==> (candidates.contains(name) || names_optional_dependency(
                    package@.dependencies,
                    name,
                )) by {
                if names_optional_dependency(package@.dependencies, name) {
                    let j = choose|j: int|
                        0 <= j < listed.len() && (#[trigger] listed[j]).optional
                            && listed[j].feature_name() == name;
                    assert(0 <= j < k && listed[j].optional);
                }
            }
        }
        set.extend(&include_optional);
        assert(set@ =~= target);
        Ok(set)
    }

    /// Takes up one subset of the universe: the set of the features named in
    /// `subset` together with `included` becomes a member, unless it holds a
    /// feature of `denied` or is a member of `skipped`. Returns whether it did.
    pub fn consider(
        &mut self,
        subset: Vec<String>,
        included: &FeatureSet,
        denied: &FeatureSet,
        skipped: &FeatureMatrix,
    ) -> (taken: bool)
        ensures
            taken == admitted(texts(subset@).to_set(), included@, denied@, skipped@).is_some(),
            final(self)@ == match admitted(texts(subset@).to_set(), included@, denied@, skipped@) {
                Some(set) => old(self)@.insert(set),
                None => old(self)@,
            },
    {
        let mut set = FeatureSet::from_names(subset);
        set.extend(included);
        if set.is_disjoint(denied) && !skipped.contains(&set) {
            let _ = self.insert(set);
            true
        } else {
            false
        }
    }

    /// The matrix over `universe`: for each subset of the universe, the subset
    /// together with `included`, unless that holds a feature of `denied` or is a
    /// member of `skipped`. A universe of n features has 2^n subsets, and all of
    /// them are visited.
    pub fn expand(
        universe: &FeatureSet,
        included: &FeatureSet,
        denied: &FeatureSet,
        skipped: &FeatureMatrix,
    ) -> (matrix: FeatureMatrix)
        ensures
            matrix@ == matrix_of(universe@, included@, denied@, skipped@),
    {
        let names = universe.names();
        let ghost items = texts(names@);
        let mut subsets = powerset(names);
        let ghost all = pending_subsets(subsets);
        let ghost mut done: int = 0;
        let mut matrix = FeatureMatrix::default();
        loop
            invariant
                items == universe.elements(),
                enumerates_selections(all, items),
                0 <= done <= all.len(),
                pending_subsets(subsets) == all.skip(done),
                forall|set: Set<Seq<char>>|
                    matrix@.contains(set) <==> exists|j: int|
                        0 <= j < done && #[trigger] admitted(
                            all[j].to_set(),
                            included@,
                            denied@,
                            skipped@,
                        ) == Some(set),
            decreases all.len() - done,
        {
            match next_subset(&mut subsets) {
                None => {
                    proof {
                        assert(done == all.len());
                        assert forall|set: Set<Seq<char>>|
                            matrix@.contains(set) <==> matrix_of(
                                universe@,
                                included@,
                                denied@,
                                skipped@,
                            ).contains(set) by {
                            if matrix@.contains(set) {
                                let j = choose|j: int|
                                    0 <= j < done && #[trigger] admitted(
                                        all[j].to_set(),
                                        included@,
                                        denied@,
                                        skipped@,
                                    ) == Some(set);
                                assert(is_selection(items, all[j]));
                                let mask = choose|mask: Seq<bool>|
                                    mask.len() == items.len() && #[trigger] selection(items, mask)
                                        == all[j];
                                lemma_selection_is_subset(items, mask);
                            }
                            if matrix_of(universe@, included@, denied@, skipped@).contains(set) {
                                let subset = choose|subset: Set<Seq<char>>|
                                    subset.subset_of(universe@) && #[trigger] admitted(
                                        subset,
                                        included@,
                                        denied@,
                                        skipped@,
                                    ) == Some(set);
                                lemma_subset_is_selection(items, subset);
                                let picked = selection(items, mask_of(items, subset));
                                assert(all.contains(picked));
                                let j = choose|j: int| 0 <= j < all.len() && all[j] == picked;
                                assert(admitted(all[j].to_set(), included@, denied@, skipped@) == Some(
                                    set,
                                ));
                            }
                        }
                        assert(matrix@ =~= matrix_of(universe@, included@, denied@, skipped@));
                    }
                    return matrix;
                },
                Some(subset) => {
                    assert(all.skip(done)[0] == all[done]);
                    assert(all.skip(done).drop_first() =~= all.skip(done + 1));
                    let ghost before = matrix@;
                    let _ = matrix.consider(subset, included, denied, skipped);
                    proof {
                        assert forall|set: Set<Seq<char>>|
                            matrix@.contains(set) <==> exists|j: int|
                                0 <= j < done + 1 && #[trigger] admitted(
                                    all[j].to_set(),
                                    included@,
                                    denied@,
                                    skipped@,
                                ) == Some(set) by {
                            if before.contains(set) {
                                let j = choose|j: int|
                                    0 <= j < done && #[trigger] admitted(
                                        all[j].to_set(),
                                        included@,
                                        denied@,
                                        skipped@,
                                    ) == Some(set);
                                assert(0 <= j < done + 1);
                            }
                        }
                        done = done + 1;
                    }
                },
            }
        }
    }

    /// The matrix of `package` under `channel`: every subset of the universe
    /// of features, with the always included features added, but for the sets
    /// that hold a denied feature and the sets that are to be skipped.
    pub fn new(package: &Package, config: &Config, channel: &str) -> (r: Result<
        FeatureMatrix,
        ConfigError,
    >)
        ensures
            matrix_result(r) == generate(package@, config@, channel@),
    {
        let denied = config.always_deny(channel)?;
        let skipped = config.skip(channel)?;
        let included = config.always_include(channel)?;
        let universe = Self::extract_seed(package, config, channel)?;
        Ok(Self::expand(&universe, &included, &denied, &skipped))
    }
}

/// No member of a matrix holds a denied feature, and none is a skipped set.
pub proof fn lemma_matrix_avoids_denied_and_skipped(
    universe: Set<Seq<char>>,
    included: Set<Seq<char>>,
    denied: Set<Seq<char>>,
    skipped: Set<Set<Seq<char>>>,
    set: Set<Seq<char>>,
)
    requires
        matrix_of(universe, included, denied, skipped).contains(set),
    ensures
        set.disjoint(denied),
        !skipped.contains(set),
{
}

/// Every member of a matrix holds all the always included features, and
/// beyond them only features of the universe.
pub proof fn lemma_matrix_members_hold_included(
    universe: Set<Seq<char>>,
    included: Set<Seq<char>>,
    denied: Set<Seq<char>>,
    skipped: Set<Set<Seq<char>>>,
    set: Set<Seq<char>>,
)
    requires
        matrix_of(universe, included, denied, skipped).contains(set),
    ensures
        included.subset_of(set),
        set.subset_of(universe.union(included)),
{
}

/// Over the empty universe the matrix has one member at most: the set of the
/// always included features, unless that holds a denied feature or is skipped.
pub proof fn lemma_matrix_of_empty_universe(
    included: Set<Seq<char>>,
    denied: Set<Seq<char>>,
    skipped: Set<Set<Seq<char>>>,
)
    ensures
        matrix_of(Set::empty(), included, denied, skipped) == if included.disjoint(denied)
            && !skipped.contains(included) {
            set![included]
        } else {
            Set::<Set<Seq<char>>>::empty()
        },
{
    let empty = Set::<Seq<char>>::empty();
    let matrix = matrix_of(empty, included, denied, skipped);
    assert(empty.union(included) =~= included);
    assert forall|set: Set<Seq<char>>| matrix.contains(set) implies set == included
        && included.disjoint(denied) && !skipped.contains(included) by {
        let subset = choose|subset: Set<Seq<char>>|
            subset.subset_of(empty) && #[trigger] admitted(subset, included, denied, skipped)
                == Some(set);
        assert(subset =~= empty);
    }
    if included.disjoint(denied) && !skipped.contains(included) {
        assert(empty.subset_of(empty) && admitted(empty, included, denied, skipped) == Some(
            included,
        ));
        assert(matrix.contains(included));
        assert(matrix =~= set![included]);
    } else {
        assert(matrix =~= Set::<Set<Seq<char>>>::empty());
    }
}

/// No member of a generated matrix holds a feature that the channel denies,
/// and none is a set that the channel skips.
pub proof fn lemma_generated_avoids_denied_and_skipped(
    package: PackageView,
    channels: Seq<ChannelView>,
    name: Seq<char>,
    set: Set<Seq<char>>,
)
    requires
        generate(package, channels, name) matches Ok(matrix) && matrix.contains(set),
    ensures
        resolved_always_deny(channels, name) matches Ok(denied) && set.disjoint(denied),
        resolved_skip(channels, name) matches Ok(skipped) && !skipped.contains(set),
{
}

/// Every member of a generated matrix holds all the features that the channel
/// always includes.
pub proof fn lemma_generated_holds_included(
    package: PackageView,
    channels: Seq<ChannelView>,
    name: Seq<char>,
    set: Set<Seq<char>>,
)
    requires
        generate(package, channels, name) matches Ok(matrix) && matrix.contains(set),
    ensures
        resolved_always_include(channels, name) matches Ok(included) && included.subset_of(set),
{
}

/// A package that declares no feature has, under the configuration that
/// states no rule, the matrix whose one member is the empty feature set,
/// whatever channel is asked for.
pub proof fn lemma_matrix_without_features_and_rules(package: PackageView, name: Seq<char>)
    requires
        package.features == Map::<Seq<char>, Seq<Seq<char>>>::empty(),
    ensures
        generate(package, default_config(), name) == Ok::<_, ConfigError>(
            set![Set::<Seq<char>>::empty()],
        ),
{
    let channels = default_config();
    assert(channels[0].name == default_name());
    assert(is_first_named(channels, default_name(), 0));
    lemma_first_named_unique(channels, default_name(), 0);
    if defines(channels, name) {
        let i = choose|i: int| 0 <= i < channels.len() && #[trigger] channels[i].name == name;
        assert(name == default_name());
    }
    let empty = Set::<Seq<char>>::empty();
    assert(resolved_seed(channels, name) == Ok::<_, ConfigError>(None::<Set<Seq<char>>>));
    assert(universe(package, channels, name) == Ok::<_, ConfigError>(
        derived_universe(package, empty, empty, false, false, empty),
    ));
    assert(derived_universe(package, empty, empty, false, false, empty) =~= empty);
    lemma_matrix_of_empty_universe(empty, empty, Set::empty());
}

/// Generating twice from the same package, configuration and channel gives the
/// same outcome: the same error or matrices with the same members, which are
/// then walked in the same order.
pub proof fn lemma_generation_is_deterministic(
    first: Result<FeatureMatrix, ConfigError>,
    second: Result<FeatureMatrix, ConfigError>,
    package: PackageView,
    channels: Seq<ChannelView>,
    name: Seq<char>,
)
    requires
        matrix_result(first) == generate(package, channels, name),
        matrix_result(second) == generate(package, channels, name),
        first matches Ok(matrix) ==> matrix.is_canonical(),
        second matches Ok(matrix) ==> matrix.is_canonical(),
    ensures
        match (first, second) {
            (Ok(a), Ok(b)) => a@ == b@ && a.rows() == b.rows(),
            (Err(a), Err(b)) => a == b,
            _ => false,
        },
{
    if let (Ok(a), Ok(b)) = (first, second) {
        lemma_matrix_rows_unique(a.rows(), b.rows());
    }
}

} // verus!
