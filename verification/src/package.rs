//! What the library reads of a package: its declared features and its dependencies.

use crate::text::texts;
use vstd::prelude::*;
use vstd::string::*;

verus! {

/// A dependency of a package.
#[derive(Debug)]
pub struct Dependency {
    /// The name under which the dependency is published.
    pub name: String,
    /// Whether the dependency is only built on request.
    pub optional: bool,
    /// The name that the package gives to the dependency, if it renames it.
    pub rename: Option<String>,
}

/// A dependency in terms of texts.
pub struct DependencyView {
    pub name: Seq<char>,
    pub optional: bool,
    pub rename: Option<Seq<char>>,
}

impl View for Dependency {
    type V = DependencyView;

    open spec fn view(&self) -> DependencyView {
        DependencyView {
            name: self.name@,
            optional: self.optional,
            rename: match self.rename {
                Some(r) => Some(r@),
                None => None,
            },
        }
    }
}

impl DependencyView {
    /// The name of the feature that stands for the dependency: the name that
    /// the package gives it, else its own.
    pub open spec fn feature_name(self) -> Seq<char> {
        match self.rename {
            Some(r) => r,
            None => self.name,
        }
    }
}

/// A feature as a package declares it: its name and what it activates. An
/// activation is the name of a feature or, behind the marker "dep:", the name
/// of a dependency.
#[derive(Debug)]
pub struct Declaration {
    pub name: String,
    pub activations: Vec<String>,
}

/// A declaration in terms of texts.
pub struct DeclarationView {
    pub name: Seq<char>,
    pub activations: Seq<Seq<char>>,
}

impl View for Declaration {
    type V = DeclarationView;

    open spec fn view(&self) -> DeclarationView {
        DeclarationView { name: self.name@, activations: texts(self.activations@) }
    }
}

/// The declarations in terms of texts.
pub open spec fn declaration_views(declarations: Seq<Declaration>) -> Seq<DeclarationView> {
    declarations.map_values(|d: Declaration| d@)
}

/// The dependencies in terms of texts.
pub open spec fn dependency_views(dependencies: Seq<Dependency>) -> Seq<DependencyView> {
    dependencies.map_values(|d: Dependency| d@)
}

/// No two declarations go by one name.
pub open spec fn distinct_names(declarations: Seq<DeclarationView>) -> bool {
    forall|i: int, j: int|
        0 <= i < j < declarations.len() ==> (#[trigger] declarations[i]).name
            != (#[trigger] declarations[j]).name
}

/// Some declaration goes by `name`.
pub open spec fn declares(declarations: Seq<DeclarationView>, name: Seq<char>) -> bool {
    exists|i: int| 0 <= i < declarations.len() && (#[trigger] declarations[i]).name == name
}

/// The mapping from the declared names to what each activates.
pub open spec fn declared(declarations: Seq<DeclarationView>) -> Map<Seq<char>, Seq<Seq<char>>> {
    Map::new(
        |name: Seq<char>| declares(declarations, name),
        |name: Seq<char>|
            declarations[choose|i: int|
                0 <= i < declarations.len() && (#[trigger] declarations[i]).name
                    == name].activations,
    )
}

/// Under distinct names, each declaration is what the mapping holds for its name.
pub proof fn lemma_declared_at(declarations: Seq<DeclarationView>, i: int)
    requires
        distinct_names(declarations),
        0 <= i < declarations.len(),
    ensures
        declared(declarations).contains_key(declarations[i].name),
        declared(declarations)[declarations[i].name] == declarations[i].activations,
{
    let name = declarations[i].name;
    assert(declares(declarations, name));
    let k = choose|k: int| 0 <= k < declarations.len() && (#[trigger] declarations[k]).name == name;
    if k < i {
        assert(declarations[k].name != declarations[i].name);
    } else if i < k {
        assert(declarations[i].name != declarations[k].name);
    }
}

/// A declaration that takes the place of the one of its name changes the
/// mapping at that name only.
pub proof fn lemma_declared_update(before: Seq<DeclarationView>, i: int, added: DeclarationView)
    requires
        distinct_names(before),
        0 <= i < before.len(),
        before[i].name == added.name,
    ensures
        distinct_names(before.update(i, added)),
        declared(before.update(i, added)) == declared(before).insert(
            added.name,
            added.activations,
        ),
{
    let after = before.update(i, added);
    let name = added.name;
    assert forall|p: int, q: int| 0 <= p < q < after.len() implies (#[trigger] after[p]).name != (
    #[trigger] after[q]).name by {
        assert(before[p].name != before[q].name);
    }
    assert forall|key: Seq<char>| #[trigger]
        declared(after).contains_key(key) <==> declared(before).insert(
            name,
            added.activations,
        ).contains_key(key) by {
        if declares(after, key) {
            let k = choose|k: int| 0 <= k < after.len() && (#[trigger] after[k]).name == key;
            assert(before[k].name == key);
        }
        if declares(before, key) {
            let k = choose|k: int| 0 <= k < before.len() && (#[trigger] before[k]).name == key;
            assert(after[k].name == key);
        }
        if key == name {
            assert(after[i].name == key);
        }
    }
    assert forall|key: Seq<char>| #[trigger] declared(after).contains_key(key) implies declared(
        after,
    )[key] == declared(before).insert(name, added.activations)[key] by {
        let k = choose|k: int| 0 <= k < after.len() && (#[trigger] after[k]).name == key;
        lemma_declared_at(after, k);
        if k != i {
            assert(before[k].name == key);
            if k < i {
                assert(before[k].name != before[i].name);
            } else {
                assert(before[i].name != before[k].name);
            }
            lemma_declared_at(before, k);
        }
    }
    assert(declared(after) =~= declared(before).insert(name, added.activations));
}

/// A declaration of a new name adds that name to the mapping.
pub proof fn lemma_declared_push(before: Seq<DeclarationView>, added: DeclarationView)
    requires
        distinct_names(before),
        !declares(before, added.name),
    ensures
        distinct_names(before.push(added)),
        declared(before.push(added)) == declared(before).insert(added.name, added.activations),
{
    let after = before.push(added);
    let name = added.name;
    assert forall|p: int, q: int| 0 <= p < q < after.len() implies (#[trigger] after[p]).name != (
    #[trigger] after[q]).name by {
        if q < before.len() {
            assert(before[p].name != before[q].name);
        } else {
            assert(before[p].name != name);
        }
    }
    assert forall|key: Seq<char>| #[trigger]
        declared(after).contains_key(key) <==> declared(before).insert(
            name,
            added.activations,
        ).contains_key(key) by {
        if declares(after, key) {
            let k = choose|k: int| 0 <= k < after.len() && (#[trigger] after[k]).name == key;
            if k < before.len() {
                assert(before[k].name == key);
            }
        }
        if declares(before, key) {
            let k = choose|k: int| 0 <= k < before.len() && (#[trigger] before[k]).name == key;
            assert(after[k].name == key);
        }
        if key == name {
            assert(after[before.len() as int].name == key);
        }
    }
    assert forall|key: Seq<char>| #[trigger] declared(after).contains_key(key) implies declared(
        after,
    )[key] == declared(before).insert(name, added.activations)[key] by {
        let k = choose|k: int| 0 <= k < after.len() && (#[trigger] after[k]).name == key;
        lemma_declared_at(after, k);
        if k < before.len() {
            assert(before[k].name == key);
            assert(declares(before, key));
            lemma_declared_at(before, k);
        }
    }
    assert(declared(after) =~= declared(before).insert(name, added.activations));
}

/// The position of the declaration that goes by `name`, if there is one.
pub fn find_declaration(declarations: &[Declaration], name: &str) -> (found: Option<usize>)
    ensures
        match found {
            Some(i) => i < declarations@.len() && declarations@[i as int].name@ == name@,
            None => !declares(declaration_views(declarations@), name@),
        },
{
    let wanted = name.to_owned();
    let mut i: usize = 0;
    while i < declarations.len()
        invariant
            0 <= i <= declarations@.len(),
            wanted@ == name@,
            forall|j: int|
                0 <= j < i ==> (#[trigger] declaration_views(declarations@)[j]).name != name@,
        decreases declarations@.len() - i,
    {
        if declarations[i].name == wanted {
            return Some(i);
        }
        i = i + 1;
    }
    None
}

/// A package of the workspace, as far as the generation of its matrix reads it.
#[derive(Debug)]
pub struct Package {
    name: String,
    features: Vec<Declaration>,
    dependencies: Vec<Dependency>,
}

/// A package in terms of texts.
pub struct PackageView {
    /// The name of the package.
    pub name: Seq<char>,
    /// The declared features: from the name of each to what it activates.
    pub features: Map<Seq<char>, Seq<Seq<char>>>,
    /// The dependencies, in the order in which the package lists them.
    pub dependencies: Seq<DependencyView>,
}

impl View for Package {
    type V = PackageView;

    closed spec fn view(&self) -> PackageView {
        PackageView {
            name: self.name@,
            features: declared(declaration_views(self.features@)),
            dependencies: dependency_views(self.dependencies@),
        }
    }
}

impl Package {
    /// Each feature is declared once.
    #[verifier::type_invariant]
    closed spec fn declared_once(&self) -> bool {
        distinct_names(declaration_views(self.features@))
    }

    /// The package of the given name, without features and dependencies.
    pub fn new(name: &str) -> (package: Self)
        ensures
            package@.name == name@,
            package@.features == Map::<Seq<char>, Seq<Seq<char>>>::empty(),
            package@.dependencies == Seq::<DependencyView>::empty(),
    {
        let package = Package {
            name: name.to_owned(),
            features: Vec::new(),
            dependencies: Vec::new(),
        };
        assert(package@.features =~= Map::<Seq<char>, Seq<Seq<char>>>::empty());
        assert(package@.dependencies =~= Seq::<DependencyView>::empty());
        package
    }

    /// The name of the package.
    pub fn name(&self) -> (name: &str)
        ensures
            name@ == self@.name,
    {
        self.name.as_str()
    }

    /// The declared features, each once.
    pub fn features(&self) -> (declarations: &[Declaration])
        ensures
            distinct_names(declaration_views(declarations@)),
            declared(declaration_views(declarations@)) == self@.features,
    {
        proof {
            use_type_invariant(self);
        }
        self.features.as_slice()
    }

    /// The dependencies.
    pub fn dependencies(&self) -> (dependencies: &[Dependency])
        ensures
            dependency_views(dependencies@) == self@.dependencies,
    {
        self.dependencies.as_slice()
    }

    /// Declares the feature `name` with the given activations. A feature that
    /// is declared again loses what it activated before.
    pub fn add_feature(&mut self, name: &str, activations: Vec<String>)
        ensures
            final(self)@.name == old(self)@.name,
            final(self)@.dependencies == old(self)@.dependencies,
            final(self)@.features == old(self)@.features.insert(name@, texts(activations@)),
    {
        proof {
            use_type_invariant(&*self);
        }
        let ghost before = declaration_views(self.features@);
        let ghost added = DeclarationView { name: name@, activations: texts(activations@) };
        let wanted = name.to_owned();
        let mut features = Vec::new();
        std::mem::swap(&mut features, &mut self.features);
        let found = find_declaration(features.as_slice(), name);
        if let Some(i) = found {
            proof {
                lemma_declared_update(before, i as int, added);
            }
            features.set(i, Declaration { name: wanted, activations });
            assert(declaration_views(features@) =~= before.update(i as int, added));
        } else {
            proof {
                lemma_declared_push(before, added);
            }
            features.push(Declaration { name: wanted, activations });
            assert(declaration_views(features@) =~= before.push(added));
        }
        self.features = features;
    }

    /// Adds a dependency behind those that the package has.
    pub fn add_dependency(&mut self, dependency: Dependency)
        ensures
            final(self)@.name == old(self)@.name,
            final(self)@.features == old(self)@.features,
            final(self)@.dependencies == old(self)@.dependencies.push(dependency@),
    {
        proof {
            use_type_invariant(&*self);
        }
        let ghost before = dependency_views(self.dependencies@);
        let mut dependencies = Vec::new();
        std::mem::swap(&mut dependencies, &mut self.dependencies);
        dependencies.push(dependency);
        assert(dependency_views(dependencies@) =~= before.push(dependency@));
        self.dependencies = dependencies;
    }
}

} // verus!
