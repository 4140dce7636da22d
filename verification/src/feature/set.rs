//! Sets of features, kept in ascending order.

use super::Feature;
use crate::order::{
    first_difference, is_rank, lemma_asymmetric, lemma_increasing_no_duplicates,
    lemma_increasing_unique, lemma_insert_at_rank, lemma_precedes_not_from,
    lemma_precedes_up_to, lemma_rank_decides_membership, strictly_increasing, Ordered,
};
use crate::package::{
    declaration_views, declared, distinct_names, find_declaration, lemma_declared_at, Package,
};
use crate::text::{comma, dependency_marker, joined, starts_with, texts};
use vstd::prelude::*;
use vstd::std_specs::cmp::PartialEqSpecImpl;
use vstd::string::*;

verus! {

/// A set of features.
///
/// The features are held in ascending order, each once, so that two sets with
/// the same members are represented alike and are walked in the same order.
#[derive(Debug)]
pub struct FeatureSet {
    items: Vec<Feature>,
}

impl View for FeatureSet {
    type V = Set<Seq<char>>;

    /// The names of the members.
    open spec fn view(&self) -> Set<Seq<char>> {
        self.elements().to_set()
    }
}

impl FeatureSet {
    /// The names of the members in the order in which the set is walked.
    pub closed spec fn elements(&self) -> Seq<Seq<char>> {
        self.items@.map_values(|f: Feature| f@)
    }

    /// The members stand in strictly ascending order.
    #[verifier::type_invariant]
    pub open spec fn is_canonical(&self) -> bool {
        strictly_increasing(self.elements())
    }

    /// The empty set.
    pub fn new() -> (set: Self)
        ensures
            set@ == Set::<Seq<char>>::empty(),
            set.elements() == Seq::<Seq<char>>::empty(),
    {
        let set = FeatureSet { items: Vec::new() };
        assert(set.elements() =~= Seq::<Seq<char>>::empty());
        assert(set@ =~= Set::<Seq<char>>::empty());
        set
    }

    /// The number of members.
    pub fn len(&self) -> (n: usize)
        ensures
            n == self@.len(),
            n == self.elements().len(),
    {
        proof {
            use_type_invariant(self);
            lemma_increasing_no_duplicates(self.elements());
            self.elements().unique_seq_to_set();
        }
        self.items.len()
    }

    /// Whether the set has no member.
    pub fn is_empty(&self) -> (r: bool)
        ensures
            r == (self@ == Set::<Seq<char>>::empty()),
            r == (self.elements().len() == 0),
    {
        proof {
            if self.elements().len() > 0 {
                assert(self.elements().contains(self.elements()[0]));
                assert(self@.contains(self.elements()[0]));
            } else {
                assert(self@ =~= Set::<Seq<char>>::empty());
            }
        }
        self.items.len() == 0
    }

    /// The members in ascending order.
    pub fn as_slice(&self) -> (members: &[Feature])
        ensures
            members@.map_values(|f: Feature| f@) == self.elements(),
            strictly_increasing(self.elements()),
    {
        proof {
            use_type_invariant(self);
        }
        self.items.as_slice()
    }

    /// The members in ascending order.
    pub fn into_iter(self) -> (members: Vec<Feature>)
        ensures
            members@.map_values(|f: Feature| f@) == self.elements(),
            strictly_increasing(self.elements()),
    {
        proof {
            use_type_invariant(&self);
        }
        self.items
    }

    /// The position at which `feature` stands or would have to be inserted,
    /// found by bisection.
    fn rank(&self, feature: &Feature) -> (pos: usize)
        ensures
            is_rank(self.elements(), feature@, pos as int),
    {
        proof {
            use_type_invariant(self);
        }
        let mut low: usize = 0;
        let mut high: usize = self.items.len();
        while low < high
            invariant
                0 <= low <= high <= self.items.len(),
                self.elements().len() == self.items.len(),
                strictly_increasing(self.elements()),
                forall|i: int| 0 <= i < low ==> #[trigger] self.elements()[i].precedes(feature@),
                forall|i: int|
                    high <= i < self.items.len() ==> !#[trigger] self.elements()[i].precedes(
                        feature@,
                    ),
            decreases high - low,
        {
            let mid = low + (high - low) / 2;
            if self.items[mid].precedes(feature) {
                proof {
                    lemma_precedes_up_to(self.elements(), feature@, mid as int);
                }
                low = mid + 1;
            } else {
                proof {
                    lemma_precedes_not_from(self.elements(), feature@, mid as int);
                }
                high = mid;
            }
        }
        low
    }

    /// Whether `feature` is a member.
    pub fn contains(&self, feature: &Feature) -> (r: bool)
        ensures
            r == self@.contains(feature@),
    {
        let pos = self.rank(feature);
        proof {
            use_type_invariant(self);
            lemma_rank_decides_membership(self.elements(), feature@, pos as int);
        }
        pos < self.items.len() && self.items[pos] == *feature
    }

    /// Adds `feature` to the set. Returns whether it was absent before.
    pub fn insert(&mut self, feature: Feature) -> (fresh: bool)
        ensures
            final(self)@ == old(self)@.insert(feature@),
            fresh == !old(self)@.contains(feature@),
    {
        let pos = self.rank(&feature);
        proof {
            use_type_invariant(&*self);
            lemma_rank_decides_membership(self.elements(), feature@, pos as int);
        }
        if pos < self.items.len() && self.items[pos] == feature {
            assert(self@ =~= self@.insert(feature@));
            false
        } else {
            proof {
                lemma_insert_at_rank(self.elements(), feature@, pos as int);
            }
            let ghost before = self.elements();
            let mut items = Vec::new();
            std::mem::swap(&mut items, &mut self.items);
            items.insert(pos, feature);
            assert(items@.map_values(|f: Feature| f@) =~= before.insert(pos as int, feature@));
            self.items = items;
            true
        }
    }

    /// Adds every member of `other` to the set.
    pub fn extend(&mut self, other: &FeatureSet)
        ensures
            final(self)@ == old(self)@.union(other@),
    {
        let mut i: usize = 0;
        while i < other.items.len()
            invariant
                0 <= i <= other.items.len(),
                other.elements().len() == other.items.len(),
                forall|x: Seq<char>|
                    self@.contains(x) <==> (old(self)@.contains(x) || exists|j: int|
                        0 <= j < i && #[trigger] other.elements()[j] == x),
            decreases other.items.len() - i,
        {
            let ghost before = self@;
            let _ = self.insert(other.items[i].clone());
            assert(self@ == before.insert(other.elements()[i as int]));
            i = i + 1;
        }
        assert(self@ =~= old(self)@.union(other@));
    }

    /// Whether the two sets have no member in common.
    pub fn is_disjoint(&self, other: &FeatureSet) -> (r: bool)
        ensures
            r == self@.disjoint(other@),
    {
        let mut i: usize = 0;
        while i < self.items.len()
            invariant
                0 <= i <= self.items.len(),
                self.elements().len() == self.items.len(),
                forall|j: int| 0 <= j < i ==> !other@.contains(#[trigger] self.elements()[j]),
            decreases self.items.len() - i,
        {
            if other.contains(&self.items[i]) {
                assert(self.elements().contains(self.elements()[i as int]));
                return false;
            }
            i = i + 1;
        }
        true
    }

    /// The set of the given features.
    pub fn from_iter(features: Vec<Feature>) -> (set: Self)
        ensures
            set@ == features@.map_values(|f: Feature| f@).to_set(),
    {
        let mut set = FeatureSet::new();
        let mut features = features;
        let ghost all = features@.map_values(|f: Feature| f@);
        let ghost total = features@.len();
        while features.len() > 0
            invariant
                features@.len() <= total,
                all.len() == total,
                features@.map_values(|f: Feature| f@) =~= all.take(features@.len() as int),
                forall|x: Seq<char>|
                    set@.contains(x) <==> exists|j: int|
                        features@.len() <= j < total && #[trigger] all[j] == x,
            decreases features@.len(),
        {
            let ghost n = features@.len();
            let ghost names = features@.map_values(|f: Feature| f@);
            assert(names[n - 1] == all[n - 1]);
            let feature = features.pop().unwrap();
            assert(feature@ == all[n - 1]);
            let _ = set.insert(feature);
        }
        assert(set@ =~= all.to_set());
        set
    }

    /// Whether this set comes before `other` in the order of feature sets:
    /// the lexicographic order of their members taken in ascending order.
    pub fn precedes(&self, other: &FeatureSet) -> (r: bool)
        ensures
            r == self.elements().precedes(other.elements()),
    {
        let ghost a = self.elements();
        let ghost b = other.elements();
        let mut i: usize = 0;
        while i < self.items.len() && i < other.items.len()
            invariant
                a == self.elements(),
                b == other.elements(),
                a.len() == self.items.len(),
                b.len() == other.items.len(),
                0 <= i <= a.len(),
                i <= b.len(),
                forall|j: int| 0 <= j < i ==> a[j] == b[j],
            decreases self.items.len() - i,
        {
            if self.items[i].precedes(&other.items[i]) {
                assert(first_difference(a, b, i as int));
                return true;
            }
            if other.items[i].precedes(&self.items[i]) {
                proof {
                    assert(first_difference(b, a, i as int));
                    lemma_asymmetric(b, a);
                }
                return false;
            }
            proof {
                Seq::<char>::lemma_total(a[i as int], b[i as int]);
            }
            i = i + 1;
        }
        if i < other.items.len() {
            assert(first_difference(a, b, i as int));
            true
        } else {
            proof {
                if a.len() == b.len() {
                    assert(a =~= b);
                    Seq::<Seq<char>>::lemma_irreflexive(a);
                } else {
                    assert(first_difference(b, a, i as int));
                    lemma_asymmetric(b, a);
                }
            }
            false
        }
    }

    /// The members in ascending order, separated by commas.
    pub fn to_string(&self) -> (text: String)
        ensures
            text@ == joined(self.elements(), comma()),
    {
        let mut text = String::new();
        let mut i: usize = 0;
        proof {
            reveal_strlit(",");
            assert(","@ =~= comma());
        }
        while i < self.items.len()
            invariant
                0 <= i <= self.items.len(),
                self.elements().len() == self.items.len(),
                ","@ == comma(),
                text@ == joined(self.elements().take(i as int), comma()),
            decreases self.items.len() - i,
        {
            let ghost so_far = self.elements().take(i as int);
            let ghost next = self.elements().take(i + 1);
            assert(next.drop_last() =~= so_far);
            assert(next.last() == self.elements()[i as int]);
            if i > 0 {
                text.append(",");
            }
            text.append(self.items[i].as_str());
            assert(text@ =~= joined(next, comma()));
            i = i + 1;
        }
        assert(self.elements().take(i as int) =~= self.elements());
        text
    }
}

impl FeatureSet {
    /// The names of the members in ascending order.
    pub fn names(&self) -> (names: Vec<String>)
        ensures
            texts(names@) == self.elements(),
    {
        let members = self.as_slice();
        let mut names: Vec<String> = Vec::new();
        let mut i: usize = 0;
        while i < members.len()
            invariant
                0 <= i <= members@.len(),
                members@.map_values(|f: Feature| f@) == self.elements(),
                texts(names@) =~= self.elements().take(i as int),
            decreases members@.len() - i,
        {
            let ghost so_far = texts(names@);
            names.push(members[i].0.clone());
            assert(texts(names@) =~= so_far.push(self.elements()[i as int]));
            i = i + 1;
        }
        assert(self.elements().take(i as int) =~= self.elements());
        names
    }

    /// The set of the features of the given names.
    pub fn from_names(names: Vec<String>) -> (set: Self)
        ensures
            set@ == texts(names@).to_set(),
    {
        let mut set = FeatureSet::new();
        let mut names = names;
        let ghost all = texts(names@);
        let ghost total = names@.len();
        while names.len() > 0
            invariant
                names@.len() <= total,
                all.len() == total,
                texts(names@) =~= all.take(names@.len() as int),
                forall|x: Seq<char>|
                    set@.contains(x) <==> exists|j: int|
                        names@.len() <= j < total && #[trigger] all[j] == x,
            decreases names@.len(),
        {
            let ghost n = names@.len();
            assert(texts(names@)[n - 1] == all[n - 1]);
            let name = names.pop().unwrap();
            let _ = set.insert(Feature(name));
        }
        assert(set@ =~= all.to_set());
        set
    }
}

impl Clone for FeatureSet {
    fn clone(&self) -> (copy: Self)
        ensures
            copy@ == self@,
            copy.elements() == self.elements(),
    {
        proof {
            use_type_invariant(self);
        }
        let mut items: Vec<Feature> = Vec::new();
        let mut i: usize = 0;
        while i < self.items.len()
            invariant
                0 <= i <= self.items.len(),
                self.elements().len() == self.items.len(),
                items@.map_values(|f: Feature| f@) =~= self.elements().take(i as int),
            decreases self.items.len() - i,
        {
            let ghost so_far = items@.map_values(|f: Feature| f@);
            items.push(self.items[i].clone());
            assert(items@.map_values(|f: Feature| f@) =~= so_far.push(self.elements()[i as int]));
            i = i + 1;
        }
        assert(self.elements().take(i as int) =~= self.elements());
        FeatureSet { items }
    }
}

impl PartialEq for FeatureSet {
    fn eq(&self, other: &Self) -> (r: bool) {
        proof {
            use_type_invariant(self);
            use_type_invariant(other);
            if self@ == other@ {
                lemma_increasing_unique(self.elements(), other.elements());
            }
        }
        if self.items.len() != other.items.len() {
            return false;
        }
        let mut i: usize = 0;
        while i < self.items.len()
            invariant
                0 <= i <= self.items.len(),
                self.items.len() == other.items.len(),
                self.elements().len() == self.items.len(),
                other.elements().len() == other.items.len(),
                self@ == other@ ==> self.elements() == other.elements(),
                forall|j: int| 0 <= j < i ==> self.elements()[j] == other.elements()[j],
            decreases self.items.len() - i,
        {
            if self.items[i] != other.items[i] {
                assert(self.elements()[i as int] != other.elements()[i as int]);
                return false;
            }
            i = i + 1;
        }
        assert(self.elements() =~= other.elements());
        true
    }
}

impl PartialEqSpecImpl for FeatureSet {
    open spec fn obeys_eq_spec() -> bool {
        true
    }

    open spec fn eq_spec(&self, other: &Self) -> bool {
        self@ == other@
    }
}

impl Eq for FeatureSet {

}

/// The names of the given features.
pub open spec fn names_of(features: Seq<Feature>) -> Set<Seq<char>> {
    features.map_values(|f: Feature| f@).to_set()
}

/// Whether `activation` names a feature, not a dependency.
pub open spec fn is_plain(activation: Seq<char>) -> bool {
    !dependency_marker().is_prefix_of(activation)
}

/// The features that the members of `set` activate: for each member that the
/// package declares, the activations that name a feature.
pub open spec fn activated_features(
    features: Map<Seq<char>, Seq<Seq<char>>>,
    set: Set<Seq<char>>,
) -> Set<Seq<char>> {
    Set::new(
        |activation: Seq<char>|
            exists|member: Seq<char>|
                set.contains(member) && features.contains_key(member)
                    && #[trigger] features[member].contains(activation) && is_plain(activation),
    )
}

/// Appends to `found` the features that `activations` name.
fn collect_plain(activations: &Vec<String>, found: &mut Vec<Feature>)
    ensures
        forall|name: Seq<char>| #[trigger]
            names_of(final(found)@).contains(name) <==> (names_of(old(found)@).contains(name) || (
            texts(activations@).contains(name) && is_plain(name))),
{
    proof {
        reveal_strlit("dep:");
        assert("dep:"@ =~= dependency_marker());
    }
    let mut i: usize = 0;
    while i < activations.len()
        invariant
            0 <= i <= activations.len(),
            "dep:"@ == dependency_marker(),
            forall|name: Seq<char>| #[trigger]
                names_of(found@).contains(name) <==> (names_of(old(found)@).contains(name) || (
                is_plain(name) && exists|j: int|
                    0 <= j < i && #[trigger] texts(activations@)[j] == name)),
        decreases activations.len() - i,
    {
        let ghost before = found@;
        let plain = !starts_with(activations[i].as_str(), "dep:");
        if plain {
            found.push(Feature::new(activations[i].as_str()));
        }
        proof {
            let listed = texts(activations@);
            let views_before = before.map_values(|f: Feature| f@);
            let views = found@.map_values(|f: Feature| f@);
            if plain {
                assert(views =~= views_before.push(listed[i as int]));
            }
            assert forall|name: Seq<char>| #[trigger]
                names_of(found@).contains(name) <==> (names_of(old(found)@).contains(name) || (
                is_plain(name) && exists|j: int| 0 <= j < i + 1 && #[trigger] listed[j] == name)) by {
                if views.contains(name) {
                    let k = choose|k: int| 0 <= k < views.len() && views[k] == name;
                    if k < views_before.len() {
                        assert(views_before[k] == name);
                        assert(names_of(before).contains(name));
                        if !names_of(old(found)@).contains(name) {
                            let j = choose|j: int| 0 <= j < i && #[trigger] listed[j] == name;
                            assert(0 <= j < i + 1 && listed[j] == name);
                        }
                    } else {
                        assert(0 <= i < i + 1 && listed[i as int] == name);
                    }
                }
                if names_of(before).contains(name) {
                    let k = choose|k: int|
                        0 <= k < views_before.len() && views_before[k] == name;
                    assert(views[k] == name);
                }
                if is_plain(name) && exists|j: int| 0 <= j < i + 1 && #[trigger] listed[j] == name {
                    let j = choose|j: int| 0 <= j < i + 1 && #[trigger] listed[j] == name;
                    if j < i {
                        assert(names_of(before).contains(name));
                    } else {
                        assert(views[views.len() - 1] == name);
                    }
                }
            }
        }
        i = i + 1;
    }
    proof {
        let listed = texts(activations@);
        assert forall|name: Seq<char>| #[trigger]
            names_of(found@).contains(name) <==> (names_of(old(found)@).contains(name) || (
            listed.contains(name) && is_plain(name))) by {
            if listed.contains(name) {
                let j = choose|j: int| 0 <= j < listed.len() && listed[j] == name;
                assert(0 <= j < i && listed[j] == name);
            }
        }
    }
}

impl FeatureSet {
    /// Adds the features that the members activate in `package`: for each
    /// member that the package declares, the activations that name a feature.
    /// What the added features activate in turn is not added.
    pub fn add_transitive_features(&mut self, package: &Package)
        ensures
            final(self)@ == old(self)@.union(activated_features(package@.features, old(self)@)),
    {
        let declarations = package.features();
        let ghost views = declaration_views(declarations@);
        let ghost features = package@.features;
        let ghost members = self.elements();
        let mut found: Vec<Feature> = Vec::new();
        let mut i: usize = 0;
        assert(names_of(found@) =~= Set::<Seq<char>>::empty());
        while i < self.items.len()
            invariant
                0 <= i <= self.items.len(),
                members == self.elements(),
                members.len() == self.items.len(),
                views == declaration_views(declarations@),
                distinct_names(views),
                declared(views) == features,
                forall|name: Seq<char>| #[trigger]
                    names_of(found@).contains(name) <==> (is_plain(name) && exists|a: int|
                        0 <= a < i && features.contains_key(members[a])
                            && #[trigger] features[members[a]].contains(name)),
            decreases self.items.len() - i,
        {
            let ghost before = found@;
            let position = find_declaration(declarations, self.items[i].as_str());
            if let Some(p) = position {
                proof {
                    lemma_declared_at(views, p as int);
                }
                collect_plain(&declarations[p].activations, &mut found);
            } else {
                assert(!features.contains_key(members[i as int]));
            }
            proof {
                assert forall|name: Seq<char>| #[trigger]
                    names_of(found@).contains(name) <==> (is_plain(name) && exists|a: int|
                        0 <= a < i + 1 && features.contains_key(members[a])
                            && #[trigger] features[members[a]].contains(name)) by {
                    if names_of(before).contains(name) {
                        let a = choose|a: int|
                            0 <= a < i && features.contains_key(members[a])
                                && #[trigger] features[members[a]].contains(name);
                        assert(0 <= a < i + 1 && features[members[a]].contains(name));
                    }
                    if names_of(found@).contains(name) && !names_of(before).contains(name) {
                        assert(0 <= i < i + 1 && features[members[i as int]].contains(name));
                    }
                    if is_plain(name) && exists|a: int|
                        0 <= a < i + 1 && features.contains_key(members[a])
                            && #[trigger] features[members[a]].contains(name) {
                        let a = choose|a: int|
                            0 <= a < i + 1 && features.contains_key(members[a])
                                && #[trigger] features[members[a]].contains(name);
                        if a < i {
                            assert(names_of(before).contains(name));
                        }
                    }
                }
            }
            i = i + 1;
        }
        proof {
            assert forall|name: Seq<char>| #[trigger]
                names_of(found@).contains(name) <==> activated_features(features, self@).contains(
                    name,
                ) by {
                if names_of(found@).contains(name) {
                    let a = choose|a: int|
                        0 <= a < i && features.contains_key(members[a])
                            && #[trigger] features[members[a]].contains(name);
                    assert(members.contains(members[a]));
                    assert(self@.contains(members[a]));
                }
                if activated_features(features, self@).contains(name) {
                    let member = choose|member: Seq<char>|
                        self@.contains(member) && features.contains_key(member)
                            && #[trigger] features[member].contains(name) && is_plain(name);
                    let a = choose|a: int| 0 <= a < members.len() && members[a] == member;
                    assert(0 <= a < i && features[members[a]].contains(name));
                }
            }
            assert(names_of(found@) =~= activated_features(features, self@));
        }
        let added = FeatureSet::from_iter(found);
        self.extend(&added);
    }
}

} // verus!
