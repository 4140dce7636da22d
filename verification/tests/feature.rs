use cargo_matrix::feature::{Feature, FeatureMatrix, FeatureSet};
use cargo_matrix::package::Package;
use cargo_matrix::text::{starts_with, text_precedes};

fn set_of(names: &[&str]) -> FeatureSet {
    FeatureSet::from_iter(names.iter().map(|name| Feature::new(name)).collect())
}

fn names_of(set: &FeatureSet) -> Vec<String> {
    set.as_slice().iter().map(|f| f.as_str().to_string()).collect()
}

fn strings(texts: &[&str]) -> Vec<String> {
    texts.iter().map(|t| t.to_string()).collect()
}

#[test]
fn text_order_is_lexicographic() {
    assert!(text_precedes("a", "b"));
    assert!(!text_precedes("b", "a"));
    assert!(!text_precedes("a", "a"));
    assert!(text_precedes("", "a"));
    assert!(!text_precedes("a", ""));
    assert!(!text_precedes("", ""));
    assert!(text_precedes("ab", "abc"));
    assert!(!text_precedes("abc", "ab"));
    assert!(text_precedes("abc", "abd"));
    assert!(text_precedes("Z", "a"));
    assert!(text_precedes("a-b", "a_b"));
}

#[test]
fn text_order_follows_unicode_scalar_values() {
    assert!(text_precedes("z", "é"));
    assert!(text_precedes("é", "日本"));
    assert!(text_precedes("日本", "😀"));
    assert!(!text_precedes("😀", "日本"));
    assert_eq!("z" < "é", text_precedes("z", "é"));
    assert_eq!("\u{ffff}" < "\u{10000}", text_precedes("\u{ffff}", "\u{10000}"));
}

#[test]
fn text_order_agrees_with_the_order_of_strings() {
    let samples = ["", "a", "ab", "abc", "b", "B", "__x", "dep:a", "é", "日本", "z"];
    for a in samples {
        for b in samples {
            assert_eq!(a < b, text_precedes(a, b), "{a:?} < {b:?}");
        }
    }
}

#[test]
fn starts_with_tells_prefixes() {
    assert!(starts_with("dep:serde", "dep:"));
    assert!(starts_with("dep:", "dep:"));
    assert!(!starts_with("dep", "dep:"));
    assert!(!starts_with("xdep:serde", "dep:"));
    assert!(starts_with("anything", ""));
    assert!(starts_with("", ""));
    assert!(!starts_with("", "a"));
    assert!(starts_with("__hidden", "__"));
    assert!(!starts_with("_hidden", "__"));
}

#[test]
fn feature_knows_its_name_and_order() {
    let a = Feature::new("alpha");
    let b = Feature::from("beta".to_string());
    assert_eq!("alpha", a.as_str());
    assert_eq!("beta", b.as_str());
    assert_eq!("alpha".to_string(), a.to_string());
    assert!(a.precedes(&b));
    assert!(!b.precedes(&a));
    assert!(!a.precedes(&a));
    assert_eq!(a, Feature::new("alpha"));
    assert_ne!(a, b);
    assert_eq!(a, a.clone());
}

#[test]
fn feature_is_hidden_by_a_double_underscore() {
    assert!(Feature::new("__internal").is_hidden());
    assert!(Feature::new("__").is_hidden());
    assert!(!Feature::new("_internal").is_hidden());
    assert!(!Feature::new("internal__").is_hidden());
    assert!(!Feature::new("").is_hidden());
}

#[test]
fn set_keeps_members_sorted_and_unique() {
    let set = set_of(&["zeta", "alpha", "mid", "alpha", "beta", "zeta"]);
    assert_eq!(strings(&["alpha", "beta", "mid", "zeta"]), names_of(&set));
    assert_eq!(4, set.len());
    assert!(!set.is_empty());
}

#[test]
fn empty_set() {
    let set = FeatureSet::new();
    assert!(set.is_empty());
    assert_eq!(0, set.len());
    assert_eq!("", set.to_string());
    assert!(names_of(&set).is_empty());
    assert!(!set.contains(&Feature::new("a")));
}

#[test]
fn set_insert_reports_fresh_members() {
    let mut set = FeatureSet::new();
    assert!(set.insert(Feature::new("b")));
    assert!(set.insert(Feature::new("a")));
    assert!(!set.insert(Feature::new("b")));
    assert!(set.insert(Feature::new("c")));
    assert_eq!(strings(&["a", "b", "c"]), names_of(&set));
    assert!(set.contains(&Feature::new("a")));
    assert!(set.contains(&Feature::new("c")));
    assert!(!set.contains(&Feature::new("d")));
    assert!(!set.contains(&Feature::new("")));
}

#[test]
fn set_equality_is_equality_of_members() {
    assert_eq!(set_of(&["a", "b"]), set_of(&["b", "a", "b"]));
    assert_ne!(set_of(&["a", "b"]), set_of(&["a"]));
    assert_ne!(set_of(&["a", "b"]), set_of(&["a", "c"]));
    assert_eq!(FeatureSet::new(), set_of(&[]));
    assert_eq!(set_of(&["x"]), set_of(&["x"]).clone());
}

#[test]
fn set_renders_sorted_and_comma_joined() {
    assert_eq!("a,b,c", set_of(&["c", "a", "b"]).to_string());
    assert_eq!("only", set_of(&["only"]).to_string());
    assert_eq!("serde,std", set_of(&["std", "serde"]).to_string());
}

#[test]
fn set_union_and_disjointness() {
    let mut set = set_of(&["a", "c"]);
    set.extend(&set_of(&["b", "c", "d"]));
    assert_eq!(set_of(&["a", "b", "c", "d"]), set);
    assert!(set_of(&["a", "b"]).is_disjoint(&set_of(&["c", "d"])));
    assert!(!set_of(&["a", "b"]).is_disjoint(&set_of(&["b", "c"])));
    assert!(set_of(&[]).is_disjoint(&set_of(&["a"])));
    assert!(set_of(&["a"]).is_disjoint(&set_of(&[])));
    assert!(set_of(&[]).is_disjoint(&set_of(&[])));
}

#[test]
fn set_names_round_trip() {
    let set = set_of(&["b", "a"]);
    assert_eq!(strings(&["a", "b"]), set.names());
    assert_eq!(set, FeatureSet::from_names(strings(&["b", "a", "a"])));
    let members = set.into_iter();
    assert_eq!(vec![Feature::new("a"), Feature::new("b")], members);
}

#[test]
fn sets_are_ordered_by_their_sorted_members() {
    let empty = set_of(&[]);
    let a = set_of(&["a"]);
    let ab = set_of(&["a", "b"]);
    let b = set_of(&["b"]);
    assert!(empty.precedes(&a));
    assert!(a.precedes(&ab));
    assert!(ab.precedes(&b));
    assert!(a.precedes(&b));
    assert!(!b.precedes(&ab));
    assert!(!a.precedes(&a));
    assert!(!a.precedes(&empty));
    assert!(!empty.precedes(&empty));
}

#[test]
fn matrix_keeps_sets_sorted_and_unique() {
    let mut matrix = FeatureMatrix::default();
    assert!(matrix.is_empty());
    assert!(matrix.insert(set_of(&["b"])));
    assert!(matrix.insert(set_of(&["a", "b"])));
    assert!(matrix.insert(set_of(&[])));
    assert!(!matrix.insert(set_of(&["b", "a"])));
    assert!(matrix.insert(set_of(&["a"])));
    assert_eq!(4, matrix.len());
    assert!(!matrix.is_empty());
    let rows: Vec<String> = matrix.as_slice().iter().map(|s| s.to_string()).collect();
    assert_eq!(strings(&["", "a", "a,b", "b"]), rows);
    assert!(matrix.contains(&set_of(&["a", "b"])));
    assert!(matrix.contains(&set_of(&[])));
    assert!(!matrix.contains(&set_of(&["c"])));
}

#[test]
fn matrix_from_sets() {
    let matrix = FeatureMatrix::from_iter(vec![
        set_of(&["b"]),
        set_of(&["a"]),
        set_of(&["b"]),
        set_of(&[]),
    ]);
    let rows: Vec<String> = matrix.as_slice().iter().map(|s| s.to_string()).collect();
    assert_eq!(strings(&["", "a", "b"]), rows);
    assert!(FeatureMatrix::from_iter(Vec::new()).is_empty());
}

#[test]
fn matrix_equality_is_equality_of_members() {
    let mut first = FeatureMatrix::default();
    first.insert(set_of(&["a"]));
    first.insert(set_of(&["b"]));
    let mut second = FeatureMatrix::default();
    second.insert(set_of(&["b"]));
    second.insert(set_of(&["a"]));
    second.insert(set_of(&["b"]));
    assert_eq!(first, second);
    assert_eq!(first, first.clone());
    second.insert(set_of(&[]));
    assert_ne!(first, second);
    let members = first.into_iter();
    assert_eq!(vec![set_of(&["a"]), set_of(&["b"])], members);
}

#[test]
fn add_transitive_features_adds_what_members_activate() {
    let mut package = Package::new("demo");
    package.add_feature("full", strings(&["json", "dep:serde", "net"]));
    package.add_feature("json", strings(&["dep:serde_json", "alloc"]));
    package.add_feature("net", strings(&[]));
    let mut set = set_of(&["full", "missing"]);
    set.add_transitive_features(&package);
    assert_eq!(set_of(&["full", "json", "missing", "net"]), set);
    set.add_transitive_features(&package);
    assert_eq!(set_of(&["alloc", "full", "json", "missing", "net"]), set);
}

#[test]
fn add_transitive_features_of_nothing_adds_nothing() {
    let mut package = Package::new("demo");
    package.add_feature("a", strings(&["b"]));
    let mut set = FeatureSet::new();
    set.add_transitive_features(&package);
    assert!(set.is_empty());
    let mut other = set_of(&["b"]);
    other.add_transitive_features(&package);
    assert_eq!(set_of(&["b"]), other);
}
