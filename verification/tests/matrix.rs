use cargo_matrix::config::{Channel, Config};
use cargo_matrix::error::ConfigError;
use cargo_matrix::feature::{Feature, FeatureMatrix, FeatureSet};
use cargo_matrix::package::{find_declaration, Dependency, Package};
use cargo_matrix::runtime::{generate_matrices, generate_matrix};

fn set_of(names: &[&str]) -> FeatureSet {
    FeatureSet::from_iter(names.iter().map(|name| Feature::new(name)).collect())
}

fn matrix_of(sets: &[&[&str]]) -> FeatureMatrix {
    let mut matrix = FeatureMatrix::default();
    for set in sets {
        matrix.insert(set_of(set));
    }
    matrix
}

fn rows(matrix: &FeatureMatrix) -> Vec<String> {
    matrix.as_slice().iter().map(|s| s.to_string()).collect()
}

fn strings(texts: &[&str]) -> Vec<String> {
    texts.iter().map(|t| t.to_string()).collect()
}

fn package(features: &[(&str, &[&str])]) -> Package {
    let mut package = Package::new("demo");
    for (name, activations) in features {
        package.add_feature(name, strings(activations));
    }
    package
}

fn dependency(name: &str, optional: bool, rename: Option<&str>) -> Dependency {
    Dependency {
        name: name.to_string(),
        optional,
        rename: rename.map(|r| r.to_string()),
    }
}

fn default_with(edit: fn(&mut Channel)) -> Config {
    let mut channel = Channel::default();
    channel.name = "default".to_string();
    edit(&mut channel);
    Config::new(vec![channel])
}

#[test]
fn package_keeps_declarations_by_name() {
    let mut package = Package::new("demo");
    assert_eq!("demo", package.name());
    assert!(package.features().is_empty());
    assert!(package.dependencies().is_empty());
    package.add_feature("a", strings(&["b"]));
    package.add_feature("b", strings(&[]));
    package.add_feature("a", strings(&["c", "d"]));
    let declared: Vec<(String, Vec<String>)> = package
        .features()
        .iter()
        .map(|d| (d.name.clone(), d.activations.clone()))
        .collect();
    assert_eq!(
        vec![
            ("a".to_string(), strings(&["c", "d"])),
            ("b".to_string(), strings(&[])),
        ],
        declared
    );
    package.add_dependency(dependency("serde", true, None));
    package.add_dependency(dependency("log", false, Some("logging")));
    assert_eq!(2, package.dependencies().len());
    assert_eq!("serde", package.dependencies()[0].name);
    assert_eq!(Some("logging".to_string()), package.dependencies()[1].rename);
}

#[test]
fn feature_that_only_enables_its_dependency_is_implicit() {
    let package = package(&[("a", &["dep:a"])]);
    assert_eq!(set_of(&["a"]), FeatureMatrix::find_implicits(&package));
}

#[test]
fn feature_whose_dependency_is_named_elsewhere_is_not_implicit() {
    let package = package(&[("a", &["dep:a"]), ("b", &["dep:a", "x"])]);
    assert_eq!(set_of(&[]), FeatureMatrix::find_implicits(&package));
}

#[test]
fn implicit_features_are_told_apart() {
    let package = package(&[
        ("alpha", &["dep:alpha"]),
        ("beta", &["dep:beta", "alpha"]),
        ("gamma", &["dep:gamma"]),
        ("delta", &["dep:other"]),
        ("epsilon", &["epsilon"]),
        ("zeta", &[]),
        ("eta", &["dep:eta"]),
        ("theta", &["dep:eta"]),
        ("iota", &["dep:iota", "dep:iota"]),
    ]);
    assert_eq!(
        set_of(&["alpha", "gamma"]),
        FeatureMatrix::find_implicits(&package)
    );
}

#[test]
fn package_without_features_has_the_empty_set_only() {
    let mut package = Package::new("empty");
    package.add_dependency(dependency("serde", true, None));
    for channel in ["default", "nightly"] {
        let matrix = FeatureMatrix::new(&package, &Config::default(), channel).unwrap();
        assert_eq!(matrix_of(&[&[]]), matrix);
        assert_eq!(strings(&[""]), rows(&matrix));
    }
}

#[test]
fn end_to_end_implicit_feature_is_left_out() {
    let mut package = package(&[("x", &[]), ("y", &["dep:y"])]);
    package.add_dependency(dependency("y", true, None));
    let config = Config::default();
    assert_eq!(
        Ok(set_of(&["x"])),
        FeatureMatrix::extract_seed(&package, &config, "default")
    );
    let matrix = FeatureMatrix::new(&package, &config, "default").unwrap();
    assert_eq!(matrix_of(&[&[], &["x"]]), matrix);
    assert_eq!(strings(&["", "x"]), rows(&matrix));
}

#[test]
fn matrix_is_the_powerset_in_canonical_order() {
    let package = package(&[("a", &[]), ("b", &[]), ("c", &["a"])]);
    let matrix = FeatureMatrix::new(&package, &Config::default(), "default").unwrap();
    assert_eq!(
        strings(&["", "a", "a,b", "a,b,c", "a,c", "b", "b,c", "c"]),
        rows(&matrix)
    );
    assert_eq!(8, matrix.len());
}

#[test]
fn expand_visits_every_subset() {
    let empty = FeatureSet::new();
    let none = FeatureMatrix::default();
    let matrix = FeatureMatrix::expand(&set_of(&["a", "b"]), &empty, &empty, &none);
    assert_eq!(matrix_of(&[&[], &["a"], &["b"], &["a", "b"]]), matrix);
    let single = FeatureMatrix::expand(&set_of(&["a"]), &empty, &empty, &none);
    assert_eq!(matrix_of(&[&[], &["a"]]), single);
    let five = FeatureMatrix::expand(&set_of(&["a", "b", "c", "d", "e"]), &empty, &empty, &none);
    assert_eq!(32, five.len());
    let nothing = FeatureMatrix::expand(&empty, &empty, &empty, &none);
    assert_eq!(matrix_of(&[&[]]), nothing);
}

#[test]
fn expand_applies_include_deny_and_skip() {
    let matrix = FeatureMatrix::expand(
        &set_of(&["a", "b", "bad"]),
        &set_of(&["std"]),
        &set_of(&["bad"]),
        &matrix_of(&[&["a", "std"], &["a"]]),
    );
    assert_eq!(
        matrix_of(&[&["std"], &["b", "std"], &["a", "b", "std"]]),
        matrix
    );
    assert_eq!(strings(&["a,b,std", "b,std", "std"]), rows(&matrix));
}

#[test]
fn consider_takes_up_one_subset() {
    let mut matrix = FeatureMatrix::default();
    let included = set_of(&["std"]);
    let denied = set_of(&["bad"]);
    let skipped = matrix_of(&[&["skip", "std"]]);
    assert!(matrix.consider(strings(&["b", "a"]), &included, &denied, &skipped));
    assert!(!matrix.consider(strings(&["a", "bad"]), &included, &denied, &skipped));
    assert!(!matrix.consider(strings(&["skip"]), &included, &denied, &skipped));
    assert!(matrix.consider(strings(&[]), &included, &denied, &skipped));
    assert!(matrix.consider(strings(&["a", "b"]), &included, &denied, &skipped));
    assert_eq!(matrix_of(&[&["std"], &["a", "b", "std"]]), matrix);
}

#[test]
fn included_and_denied_set_leaves_the_matrix_empty() {
    let config = default_with(|c| {
        c.always_include = Some(set_of(&["x"]));
        c.always_deny = Some(set_of(&["x"]));
    });
    let package = package(&[("x", &[]), ("y", &[])]);
    let matrix = FeatureMatrix::new(&package, &config, "default").unwrap();
    assert!(matrix.is_empty());
    assert_eq!(
        Ok(set_of(&["y"])),
        FeatureMatrix::extract_seed(&package, &config, "default")
    );
}

#[test]
fn empty_universe_yields_the_included_set_unless_skipped() {
    let package = Package::new("empty");
    let included = default_with(|c| c.always_include = Some(set_of(&["std"])));
    assert_eq!(
        matrix_of(&[&["std"]]),
        FeatureMatrix::new(&package, &included, "default").unwrap()
    );
    let skipped = default_with(|c| {
        c.always_include = Some(set_of(&["std"]));
        c.skip = Some(matrix_of(&[&["std"]]));
    });
    assert!(FeatureMatrix::new(&package, &skipped, "default")
        .unwrap()
        .is_empty());
    let empty_skipped = default_with(|c| c.skip = Some(matrix_of(&[&[]])));
    assert!(FeatureMatrix::new(&package, &empty_skipped, "default")
        .unwrap()
        .is_empty());
}

#[test]
fn seed_replaces_the_derived_universe() {
    let package = package(&[("a", &[]), ("b", &[])]);
    let config = default_with(|c| {
        c.seed = Some(set_of(&["s", "default", "__h"]));
        c.always_deny = Some(set_of(&["s"]));
    });
    assert_eq!(
        Ok(set_of(&["__h", "default", "s"])),
        FeatureMatrix::extract_seed(&package, &config, "default")
    );
    let matrix = FeatureMatrix::new(&package, &config, "default").unwrap();
    assert_eq!(
        matrix_of(&[&[], &["__h"], &["default"], &["__h", "default"]]),
        matrix
    );
}

#[test]
fn empty_seed_is_a_seed() {
    let package = package(&[("a", &[]), ("b", &[])]);
    let config = default_with(|c| c.seed = Some(set_of(&[])));
    assert_eq!(
        Ok(set_of(&[])),
        FeatureMatrix::extract_seed(&package, &config, "default")
    );
    assert_eq!(
        matrix_of(&[&[]]),
        FeatureMatrix::new(&package, &config, "default").unwrap()
    );
}

#[test]
fn derived_universe_leaves_out_default_denied_included_and_hidden() {
    let package = package(&[
        ("default", &["a"]),
        ("a", &[]),
        ("b", &[]),
        ("c", &[]),
        ("__internal", &[]),
        ("d", &[]),
    ]);
    let config = default_with(|c| {
        c.always_deny = Some(set_of(&["b"]));
        c.always_include = Some(set_of(&["c"]));
    });
    assert_eq!(
        Ok(set_of(&["a", "d"])),
        FeatureMatrix::extract_seed(&package, &config, "default")
    );
    let with_hidden = default_with(|c| {
        c.always_deny = Some(set_of(&["b"]));
        c.always_include = Some(set_of(&["c"]));
        c.include_hidden = Some(true);
    });
    assert_eq!(
        Ok(set_of(&["__internal", "a", "d"])),
        FeatureMatrix::extract_seed(&package, &with_hidden, "default")
    );
    let matrix = FeatureMatrix::new(&package, &config, "default").unwrap();
    assert_eq!(
        matrix_of(&[&["c"], &["a", "c"], &["c", "d"], &["a", "c", "d"]]),
        matrix
    );
}

#[test]
fn optional_dependencies_join_on_request() {
    let mut package = package(&[("a", &[])]);
    package.add_dependency(dependency("serde", true, None));
    package.add_dependency(dependency("log", false, None));
    package.add_dependency(dependency("tokio-rt", true, Some("rt")));
    let plain = Config::default();
    assert_eq!(
        Ok(set_of(&["a"])),
        FeatureMatrix::extract_seed(&package, &plain, "default")
    );
    let all = default_with(|c| c.include_all_optional = Some(true));
    assert_eq!(
        Ok(set_of(&["a", "rt", "serde"])),
        FeatureMatrix::extract_seed(&package, &all, "default")
    );
    let some = default_with(|c| c.include_optional = Some(set_of(&["log", "extra"])));
    assert_eq!(
        Ok(set_of(&["a", "extra", "log"])),
        FeatureMatrix::extract_seed(&package, &some, "default")
    );
    let both = default_with(|c| {
        c.include_all_optional = Some(true);
        c.include_optional = Some(set_of(&["log"]));
        c.always_deny = Some(set_of(&["serde"]));
    });
    assert_eq!(
        Ok(set_of(&["a", "log", "rt", "serde"])),
        FeatureMatrix::extract_seed(&package, &both, "default")
    );
}

#[test]
fn generation_uses_the_named_channel() {
    let package = package(&[("a", &[]), ("b", &[])]);
    let mut nightly = Channel::default();
    nightly.name = "nightly".to_string();
    nightly.always_deny = Some(set_of(&["a"]));
    let mut default = Channel::default();
    default.name = "default".to_string();
    default.always_include = Some(set_of(&["std"]));
    let config = Config::new(vec![default, nightly]);
    assert_eq!(
        matrix_of(&[&["std"], &["b", "std"]]),
        FeatureMatrix::new(&package, &config, "nightly").unwrap()
    );
    let expected = matrix_of(&[&["std"], &["a", "std"], &["b", "std"], &["a", "b", "std"]]);
    assert_eq!(
        expected,
        FeatureMatrix::new(&package, &config, "default").unwrap()
    );
    assert_eq!(
        expected,
        FeatureMatrix::new(&package, &config, "stable").unwrap()
    );
}

#[test]
fn generation_fails_without_a_default_channel() {
    let package = package(&[("a", &[])]);
    let mut nightly = Channel::default();
    nightly.name = "nightly".to_string();
    nightly.always_deny = Some(set_of(&["a"]));
    let config = Config::new(vec![nightly]);
    assert_eq!(
        ConfigError::MissingDefaultChannel,
        FeatureMatrix::new(&package, &config, "nightly").unwrap_err()
    );
    assert_eq!(
        ConfigError::MissingDefaultChannel,
        FeatureMatrix::new(&package, &config, "default").unwrap_err()
    );
    assert_eq!(
        ConfigError::MissingDefaultChannel,
        FeatureMatrix::extract_seed(&package, &config, "nightly").unwrap_err()
    );
}

#[test]
fn generation_needs_no_default_where_the_channel_states_every_rule() {
    let package = package(&[("a", &[])]);
    let mut nightly = Channel::default();
    nightly.name = "nightly".to_string();
    nightly.seed = Some(set_of(&["a", "b"]));
    nightly.always_deny = Some(set_of(&["b"]));
    nightly.always_include = Some(set_of(&[]));
    nightly.skip = Some(matrix_of(&[]));
    let config = Config::new(vec![nightly]);
    assert_eq!(
        matrix_of(&[&[], &["a"]]),
        FeatureMatrix::new(&package, &config, "nightly").unwrap()
    );
}

#[test]
fn generation_is_idempotent() {
    let mut package = package(&[
        ("zeta", &[]),
        ("alpha", &["dep:serde"]),
        ("mid", &["alpha"]),
        ("serde", &["dep:serde"]),
    ]);
    package.add_dependency(dependency("serde", true, None));
    let config = default_with(|c| {
        c.always_deny = Some(set_of(&["mid"]));
        c.include_all_optional = Some(true);
    });
    let first = FeatureMatrix::new(&package, &config, "default").unwrap();
    let second = FeatureMatrix::new(&package, &config, "default").unwrap();
    assert_eq!(first, second);
    assert_eq!(rows(&first), rows(&second));
    assert_eq!(
        strings(&["", "alpha", "alpha,serde", "alpha,serde,zeta", "alpha,zeta", "serde", "serde,zeta", "zeta"]),
        rows(&first)
    );
}

#[test]
fn no_generated_set_is_denied_or_skipped_and_all_hold_the_included() {
    let package = package(&[("a", &[]), ("b", &[]), ("c", &[]), ("d", &[])]);
    let config = default_with(|c| {
        c.seed = Some(set_of(&["a", "b", "c", "d"]));
        c.always_deny = Some(set_of(&["c"]));
        c.always_include = Some(set_of(&["std", "a"]));
        c.skip = Some(matrix_of(&[&["a", "b", "std"], &["a", "std"], &["b"]]));
    });
    let denied = config.always_deny("default").unwrap();
    let included = config.always_include("default").unwrap();
    let skipped = config.skip("default").unwrap();
    let matrix = FeatureMatrix::new(&package, &config, "default").unwrap();
    assert_eq!(
        matrix_of(&[&["a", "d", "std"], &["a", "b", "d", "std"]]),
        matrix
    );
    for set in matrix.as_slice() {
        assert!(set.is_disjoint(&denied));
        assert!(!skipped.contains(set));
        for feature in included.as_slice() {
            assert!(set.contains(feature));
        }
    }
}

#[test]
fn generate_matrix_keeps_the_package_with_its_matrix() {
    let package = package(&[("a", &[])]);
    let (same, matrix) = generate_matrix(&package, &Config::default(), "default").unwrap();
    assert_eq!("demo", same.name());
    assert_eq!(matrix_of(&[&[], &["a"]]), matrix);
    let none = Config::new(Vec::new());
    assert_eq!(
        ConfigError::MissingDefaultChannel,
        generate_matrix(&package, &none, "default").unwrap_err()
    );
}

#[test]
fn find_declaration_finds_by_name() {
    let package = package(&[("a", &[]), ("b", &["a"]), ("c", &[])]);
    assert_eq!(Some(1), find_declaration(package.features(), "b"));
    assert_eq!(Some(0), find_declaration(package.features(), "a"));
    assert_eq!(None, find_declaration(package.features(), "d"));
    assert_eq!(None, find_declaration(package.features(), ""));
}

#[test]
fn expand_of_ten_features_has_all_subsets_in_order() {
    let empty = FeatureSet::new();
    let none = FeatureMatrix::default();
    let universe = set_of(&["a", "b", "c", "d", "e", "f", "g", "h", "i", "j"]);
    let matrix = FeatureMatrix::expand(&universe, &empty, &empty, &none);
    assert_eq!(1024, matrix.len());
    let listed = rows(&matrix);
    assert_eq!("", listed[0]);
    assert_eq!("a", listed[1]);
    assert_eq!("a,b", listed[2]);
    assert_eq!("a,b,c,d,e,f,g,h,i,j", listed[10]);
    assert_eq!("j", listed[1023]);
    let mut sorted = listed.clone();
    sorted.sort_by(|x, y| {
        let left: Vec<&str> = x.split(',').filter(|p| !p.is_empty()).collect();
        let right: Vec<&str> = y.split(',').filter(|p| !p.is_empty()).collect();
        left.cmp(&right)
    });
    sorted.dedup();
    assert_eq!(sorted, listed);
    let denied = FeatureMatrix::expand(&universe, &empty, &set_of(&["a"]), &none);
    assert_eq!(512, denied.len());
}

#[test]
fn generate_matrices_leaves_out_what_cannot_be_generated() {
    let mut nightly = Channel::default();
    nightly.name = "nightly".to_string();
    let mut first = package(&[("a", &[])]);
    first.add_dependency(dependency("serde", true, None));
    let packages = vec![
        (first, Config::default()),
        (package(&[("b", &[])]), Config::new(vec![nightly])),
        (package(&[]), Config::default()),
    ];
    let generated = generate_matrices(&packages, "nightly");
    assert_eq!(2, generated.len());
    assert!(std::ptr::eq(generated[0].0, &packages[0].0));
    assert_eq!(matrix_of(&[&[], &["a"]]), generated[0].1);
    assert!(std::ptr::eq(generated[1].0, &packages[2].0));
    assert_eq!(matrix_of(&[&[]]), generated[1].1);
    assert!(generate_matrices(&Vec::new(), "default").is_empty());
}
