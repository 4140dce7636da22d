//! Features, feature sets and feature matrices.

pub mod generate;
pub mod matrix;
pub mod powerset;
pub mod set;

pub use self::matrix::FeatureMatrix;
pub use self::set::FeatureSet;

use crate::order::Ordered;
use crate::text::{hidden_marker, starts_with, text_precedes};
use vstd::prelude::*;
use vstd::std_specs::cmp::PartialEqSpecImpl;
use vstd::std_specs::convert::FromSpecImpl;
use vstd::string::*;

verus! {

/// The name of an optional unit of compile-time configuration of a package.
///
/// Features are equal when their names are, and are ordered as their names are,
/// character by character.
#[derive(Debug)]
pub struct Feature(pub String);

impl View for Feature {
    type V = Seq<char>;

    open spec fn view(&self) -> Seq<char> {
        self.0@
    }
}

impl Clone for Feature {
    fn clone(&self) -> (copy: Self)
        ensures
            copy == *self,
    {
        Feature(self.0.clone())
    }
}

impl PartialEq for Feature {
    fn eq(&self, other: &Self) -> (r: bool) {
        self.0 == other.0
    }
}

impl PartialEqSpecImpl for Feature {
    open spec fn obeys_eq_spec() -> bool {
        true
    }

    open spec fn eq_spec(&self, other: &Self) -> bool {
        self@ == other@
    }
}

impl Eq for Feature {

}

impl From<String> for Feature {
    fn from(name: String) -> (feature: Self) {
        Feature(name)
    }
}

impl FromSpecImpl<String> for Feature {
    open spec fn obeys_from_spec() -> bool {
        true
    }

    open spec fn from_spec(name: String) -> Self {
        Feature(name)
    }
}

impl Feature {
    /// The feature of the given name.
    pub fn new(name: &str) -> (feature: Self)
        ensures
            feature@ == name@,
    {
        Feature(name.to_owned())
    }

    /// The name of the feature.
    pub fn as_str(&self) -> (name: &str)
        ensures
            name@ == self@,
    {
        self.0.as_str()
    }

    /// The name of the feature, as a string of its own.
    pub fn to_string(&self) -> (name: String)
        ensures
            name@ == self@,
    {
        self.0.clone()
    }

    /// Whether this feature comes before `other` in the order of features.
    pub fn precedes(&self, other: &Feature) -> (r: bool)
        ensures
            r == self@.precedes(other@),
    {
        text_precedes(self.0.as_str(), other.0.as_str())
    }

    /// Whether the name marks the feature as internal to its package.
    pub fn is_hidden(&self) -> (r: bool)
        ensures
            r == hidden_marker().is_prefix_of(self@),
    {
        proof {
            reveal_strlit("__");
            assert("__"@ =~= hidden_marker());
        }
        starts_with(self.0.as_str(), "__")
    }
}

} // verus!
