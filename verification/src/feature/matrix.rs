//! Matrices: the feature sets that are to be built for one package.

use super::set::FeatureSet;
use crate::order::{
    is_rank, lemma_increasing_no_duplicates, lemma_increasing_unique, lemma_insert_at_rank,
    lemma_precedes_not_from, lemma_precedes_up_to, lemma_rank_decides_membership,
    strictly_increasing, Ordered,
};
use vstd::prelude::*;
use vstd::std_specs::cmp::PartialEqSpecImpl;

verus! {

/// The member sets of the rows of a matrix.
pub open spec fn sets_of(rows: Seq<Seq<Seq<char>>>) -> Set<Set<Seq<char>>> {
    rows.map_values(|row: Seq<Seq<char>>| row.to_set()).to_set()
}

/// Every row enumerates its members in strictly ascending order.
pub open spec fn rows_canonical(rows: Seq<Seq<Seq<char>>>) -> bool {
    forall|i: int| 0 <= i < rows.len() ==> strictly_increasing(#[trigger] rows[i])
}

/// Among canonical rows, a set is listed exactly if its ascending enumeration is a row.
pub proof fn lemma_row_membership(rows: Seq<Seq<Seq<char>>>, row: Seq<Seq<char>>)
    requires
        rows_canonical(rows),
        strictly_increasing(row),
    ensures
        sets_of(rows).contains(row.to_set()) <==> rows.contains(row),
{
    let mapped = rows.map_values(|row: Seq<Seq<char>>| row.to_set());
    if sets_of(rows).contains(row.to_set()) {
        let i = choose|i: int| 0 <= i < mapped.len() && mapped[i] == row.to_set();
        lemma_increasing_unique(rows[i], row);
        assert(rows[i] == row);
    }
    if rows.contains(row) {
        let i = choose|i: int| 0 <= i < rows.len() && rows[i] == row;
        assert(mapped[i] == row.to_set());
        assert(mapped.contains(row.to_set()));
    }
}

/// Canonical rows in strictly ascending order list as many sets as there are rows.
pub proof fn lemma_rows_count_members(rows: Seq<Seq<Seq<char>>>)
    requires
        strictly_increasing(rows),
        rows_canonical(rows),
    ensures
        sets_of(rows).len() == rows.len(),
{
    let mapped = rows.map_values(|row: Seq<Seq<char>>| row.to_set());
    lemma_increasing_no_duplicates(rows);
    assert forall|i: int, j: int|
        0 <= i < mapped.len() && 0 <= j < mapped.len() && i != j implies mapped[i]
        != mapped[j] by {
        if mapped[i] == mapped[j] {
            lemma_increasing_unique(rows[i], rows[j]);
        }
    }
    mapped.unique_seq_to_set();
}

/// A new row adds its member set to the sets of the rows.
pub proof fn lemma_sets_of_insert(rows: Seq<Seq<Seq<char>>>, pos: int, row: Seq<Seq<char>>)
    requires
        0 <= pos <= rows.len(),
    ensures
        sets_of(rows.insert(pos, row)) == sets_of(rows).insert(row.to_set()),
{
    let grown = rows.insert(pos, row);
    let mapped = rows.map_values(|row: Seq<Seq<char>>| row.to_set());
    let mapped_grown = grown.map_values(|row: Seq<Seq<char>>| row.to_set());
    assert forall|s: Set<Seq<char>>|
        sets_of(grown).contains(s) <==> sets_of(rows).insert(row.to_set()).contains(s) by {
        if mapped_grown.contains(s) {
            let i = choose|i: int| 0 <= i < mapped_grown.len() && mapped_grown[i] == s;
            if i < pos {
                assert(mapped[i] == s);
                assert(mapped.contains(s));
            } else if i > pos {
                assert(mapped[i - 1] == s);
                assert(mapped.contains(s));
            }
        }
        if mapped.contains(s) {
            let i = choose|i: int| 0 <= i < mapped.len() && mapped[i] == s;
            if i < pos {
                assert(mapped_grown[i] == s);
            } else {
                assert(mapped_grown[i + 1] == s);
            }
            assert(mapped_grown.contains(s));
        }
        if s == row.to_set() {
            assert(mapped_grown[pos] == s);
            assert(mapped_grown.contains(s));
        }
    }
    assert(sets_of(grown) =~= sets_of(rows).insert(row.to_set()));
}

/// A set of feature sets: all the feature combinations to validate for one
/// package under one channel.
///
/// The sets are held in ascending order, each once; feature sets are ordered
/// lexicographically by their members taken in ascending order.
#[derive(Debug)]
pub struct FeatureMatrix {
    sets: Vec<FeatureSet>,
}

impl View for FeatureMatrix {
    type V = Set<Set<Seq<char>>>;

    /// The member sets, each as the set of the names of its features.
    open spec fn view(&self) -> Set<Set<Seq<char>>> {
        sets_of(self.rows())
    }
}

impl FeatureMatrix {
    /// The member sets in the order in which the matrix is walked, each as the
    /// ascending enumeration of its features.
    pub closed spec fn rows(&self) -> Seq<Seq<Seq<char>>> {
        self.sets@.map_values(|s: FeatureSet| s.elements())
    }

    /// The rows stand in strictly ascending order, and so do the members of each.
    #[verifier::type_invariant]
    pub open spec fn is_canonical(&self) -> bool {
        &&& strictly_increasing(self.rows())
        &&& rows_canonical(self.rows())
    }

    /// The number of member sets.
    pub fn len(&self) -> (n: usize)
        ensures
            n == self@.len(),
            n == self.rows().len(),
    {
        proof {
            use_type_invariant(self);
            lemma_rows_count_members(self.rows());
        }
        self.sets.len()
    }

    /// Whether the matrix has no member set.
    pub fn is_empty(&self) -> (r: bool)
        ensures
            r == (self@ == Set::<Set<Seq<char>>>::empty()),
            r == (self.rows().len() == 0),
    {
        proof {
            let mapped = self.rows().map_values(|row: Seq<Seq<char>>| row.to_set());
            if self.rows().len() > 0 {
                assert(mapped.contains(mapped[0]));
                assert(self@.contains(mapped[0]));
            } else {
                assert(self@ =~= Set::<Set<Seq<char>>>::empty());
            }
        }
        self.sets.len() == 0
    }

    /// The member sets in ascending order.
    pub fn as_slice(&self) -> (members: &[FeatureSet])
        ensures
            members@.map_values(|s: FeatureSet| s.elements()) == self.rows(),
            strictly_increasing(self.rows()),
            rows_canonical(self.rows()),
    {
        proof {
            use_type_invariant(self);
        }
        self.sets.as_slice()
    }

    /// The member sets in ascending order.
    pub fn into_iter(self) -> (members: Vec<FeatureSet>)
        ensures
            members@.map_values(|s: FeatureSet| s.elements()) == self.rows(),
            strictly_increasing(self.rows()),
            rows_canonical(self.rows()),
    {
        proof {
            use_type_invariant(&self);
        }
        self.sets
    }

    /// The matrix of the given sets.
    pub fn from_iter(sets: Vec<FeatureSet>) -> (matrix: Self)
        ensures
            matrix@ == sets@.map_values(|s: FeatureSet| s@).to_set(),
    {
        let mut matrix = FeatureMatrix::default();
        let mut sets = sets;
        let ghost all = sets@.map_values(|s: FeatureSet| s@);
        let ghost total = sets@.len();
        while sets.len() > 0
            invariant
                sets@.len() <= total,
                all.len() == total,
                sets@.map_values(|s: FeatureSet| s@) =~= all.take(sets@.len() as int),
                forall|x: Set<Seq<char>>| #[trigger]
                    matrix@.contains(x) <==> exists|j: int|
                        sets@.len() <= j < total && #[trigger] all[j] == x,
            decreases sets@.len(),
        {
            let ghost n = sets@.len();
            let ghost views = sets@.map_values(|s: FeatureSet| s@);
            assert(views[n - 1] == all[n - 1]);
            let set = sets.pop().unwrap();
            assert(set@ == all[n - 1]);
            let _ = matrix.insert(set);
        }
        assert(matrix@ =~= all.to_set());
        matrix
    }

    /// The position at which `set` stands or would have to be inserted, found
    /// by bisection.
    fn rank(&self, set: &FeatureSet) -> (pos: usize)
        ensures
            is_rank(self.rows(), set.elements(), pos as int),
    {
        proof {
            use_type_invariant(self);
        }
        let mut low: usize = 0;
        let mut high: usize = self.sets.len();
        while low < high
            invariant
                0 <= low <= high <= self.sets.len(),
                self.rows().len() == self.sets.len(),
                strictly_increasing(self.rows()),
                forall|i: int| 0 <= i < low ==> #[trigger] self.rows()[i].precedes(set.elements()),
                forall|i: int|
                    high <= i < self.sets.len() ==> !#[trigger] self.rows()[i].precedes(
                        set.elements(),
                    ),
            decreases high - low,
        {
            let mid = low + (high - low) / 2;
            if self.sets[mid].precedes(set) {
                proof {
                    lemma_precedes_up_to(self.rows(), set.elements(), mid as int);
                }
                low = mid + 1;
            } else {
                proof {
                    lemma_precedes_not_from(self.rows(), set.elements(), mid as int);
                }
                high = mid;
            }
        }
        low
    }

    /// Whether `set` is a member: whether some member has exactly its features.
    pub fn contains(&self, set: &FeatureSet) -> (r: bool)
        ensures
            r == self@.contains(set@),
    {
        let pos = self.rank(set);
        proof {
            use_type_invariant(self);
            use_type_invariant(set);
            lemma_rank_decides_membership(self.rows(), set.elements(), pos as int);
            lemma_row_membership(self.rows(), set.elements());
            if pos < self.rows().len() {
                if self.rows()[pos as int].to_set() == set@ {
                    lemma_increasing_unique(self.rows()[pos as int], set.elements());
                }
            }
        }
        pos < self.sets.len() && self.sets[pos] == *set
    }

    /// Adds `set` to the matrix. Returns whether it was absent before.
    pub fn insert(&mut self, set: FeatureSet) -> (fresh: bool)
        ensures
            final(self)@ == old(self)@.insert(set@),
            fresh == !old(self)@.contains(set@),
    {
        let pos = self.rank(&set);
        let ghost before = self.rows();
        proof {
            use_type_invariant(&*self);
            use_type_invariant(&set);
            lemma_rank_decides_membership(before, set.elements(), pos as int);
            lemma_row_membership(before, set.elements());
            if pos < before.len() && before[pos as int].to_set() == set@ {
                lemma_increasing_unique(before[pos as int], set.elements());
            }
        }
        if pos < self.sets.len() && self.sets[pos] == set {
            assert(self@ =~= self@.insert(set@));
            false
        } else {
            proof {
                lemma_insert_at_rank(before, set.elements(), pos as int);
                lemma_sets_of_insert(before, pos as int, set.elements());
            }
            let mut sets = Vec::new();
            std::mem::swap(&mut sets, &mut self.sets);
            sets.insert(pos, set);
            assert(sets@.map_values(|s: FeatureSet| s.elements()) =~= before.insert(
                pos as int,
                set.elements(),
            ));
            self.sets = sets;
            true
        }
    }
}

impl Default for FeatureMatrix {
    /// The matrix without member sets.
    fn default() -> (matrix: Self)
        ensures
            matrix@ == Set::<Set<Seq<char>>>::empty(),
            matrix.rows() == Seq::<Seq<Seq<char>>>::empty(),
    {
        let matrix = FeatureMatrix { sets: Vec::new() };
        assert(matrix.rows() =~= Seq::<Seq<Seq<char>>>::empty());
        assert(matrix@ =~= Set::<Set<Seq<char>>>::empty());
        matrix
    }
}

impl Clone for FeatureMatrix {
    fn clone(&self) -> (copy: Self)
        ensures
            copy@ == self@,
            copy.rows() == self.rows(),
    {
        proof {
            use_type_invariant(self);
        }
        let mut sets: Vec<FeatureSet> = Vec::new();
        let mut i: usize = 0;
        while i < self.sets.len()
            invariant
                0 <= i <= self.sets.len(),
                self.rows().len() == self.sets.len(),
                sets@.map_values(|s: FeatureSet| s.elements()) =~= self.rows().take(i as int),
            decreases self.sets.len() - i,
        {
            let ghost so_far = sets@.map_values(|s: FeatureSet| s.elements());
            sets.push(self.sets[i].clone());
            assert(sets@.map_values(|s: FeatureSet| s.elements()) =~= so_far.push(
                self.rows()[i as int],
            ));
            i = i + 1;
        }
        assert(self.rows().take(i as int) =~= self.rows());
        FeatureMatrix { sets }
    }
}

impl PartialEq for FeatureMatrix {
    fn eq(&self, other: &Self) -> (r: bool) {
        proof {
            use_type_invariant(self);
            use_type_invariant(other);
            lemma_matrix_rows_unique(self.rows(), other.rows());
        }
        if self.sets.len() != other.sets.len() {
            return false;
        }
        let mut i: usize = 0;
        while i < self.sets.len()
            invariant
                0 <= i <= self.sets.len(),
                self.sets.len() == other.sets.len(),
                self.rows().len() == self.sets.len(),
                other.rows().len() == other.sets.len(),
                rows_canonical(self.rows()),
                rows_canonical(other.rows()),
                self@ == other@ ==> self.rows() == other.rows(),
                forall|j: int| 0 <= j < i ==> self.rows()[j] == other.rows()[j],
            decreases self.sets.len() - i,
        {
            if self.sets[i] != other.sets[i] {
                assert(self.rows()[i as int].to_set() != other.rows()[i as int].to_set());
                return false;
            }
            proof {
                lemma_increasing_unique(self.rows()[i as int], other.rows()[i as int]);
            }
            i = i + 1;
        }
        assert(self.rows() =~= other.rows());
        true
    }
}

impl PartialEqSpecImpl for FeatureMatrix {
    open spec fn obeys_eq_spec() -> bool {
        true
    }

    open spec fn eq_spec(&self, other: &Self) -> bool {
        self@ == other@
    }
}

impl Eq for FeatureMatrix {

}

/// Two canonical matrices list the same sets only if they have the same rows:
/// the representation of a matrix is determined by its members.
pub proof fn lemma_matrix_rows_unique(a: Seq<Seq<Seq<char>>>, b: Seq<Seq<Seq<char>>>)
    requires
        strictly_increasing(a),
        rows_canonical(a),
        strictly_increasing(b),
        rows_canonical(b),
    ensures
        sets_of(a) == sets_of(b) ==> a == b,
{
    if sets_of(a) == sets_of(b) {
        assert forall|row: Seq<Seq<char>>| a.contains(row) <==> b.contains(row) by {
            if a.contains(row) {
                let i = choose|i: int| 0 <= i < a.len() && a[i] == row;
                lemma_row_membership(a, row);
                lemma_row_membership(b, row);
            }
            if b.contains(row) {
                let i = choose|i: int| 0 <= i < b.len() && b[i] == row;
                lemma_row_membership(a, row);
                lemma_row_membership(b, row);
            }
        }
        assert(a.to_set() =~= b.to_set());
        lemma_increasing_unique(a, b);
    }
}

} // verus!
