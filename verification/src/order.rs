//! Strict total orders, the lexicographic order they induce on sequences,
//! and strictly increasing sequences as canonical representations of finite sets.

use vstd::prelude::*;

verus! {

/// A strict total order on the values of a type.
pub trait Ordered: Sized {
    /// `self` comes strictly before `other`.
    spec fn precedes(self, other: Self) -> bool;

    /// No value comes before itself.
    proof fn lemma_irreflexive(x: Self)
        ensures
            !x.precedes(x),
    ;

    /// The order is transitive.
    proof fn lemma_transitive(x: Self, y: Self, z: Self)
        requires
            x.precedes(y),
            y.precedes(z),
        ensures
            x.precedes(z),
    ;

    /// Any two distinct values are ordered one way or the other.
    proof fn lemma_total(x: Self, y: Self)
        ensures
            x.precedes(y) || x == y || y.precedes(x),
    ;
}

/// Characters are ordered by their Unicode scalar values.
impl Ordered for char {
    open spec fn precedes(self, other: Self) -> bool {
        (self as int) < (other as int)
    }

    proof fn lemma_irreflexive(x: Self) {
    }

    proof fn lemma_transitive(x: Self, y: Self, z: Self) {
    }

    proof fn lemma_total(x: Self, y: Self) {
    }
}

/// `a` and `b` agree before position `k`, and `a` comes first at `k`:
/// either `a` ends there while `b` goes on, or `a[k]` precedes `b[k]`.
pub open spec fn first_difference<T: Ordered>(a: Seq<T>, b: Seq<T>, k: int) -> bool {
    &&& 0 <= k <= a.len()
    &&& k < b.len()
    &&& forall|i: int| 0 <= i < k ==> a[i] == b[i]
    &&& k < a.len() ==> a[k].precedes(b[k])
}

/// Sequences are ordered lexicographically; a proper prefix comes before its extensions.
impl<T: Ordered> Ordered for Seq<T> {
    open spec fn precedes(self, other: Self) -> bool {
        exists|k: int| first_difference(self, other, k)
    }

    proof fn lemma_irreflexive(x: Self) {
        if x.precedes(x) {
            let k = choose|k: int| first_difference(x, x, k);
            T::lemma_irreflexive(x[k]);
        }
    }

    proof fn lemma_transitive(x: Self, y: Self, z: Self) {
        let j = choose|k: int| first_difference(x, y, k);
        let k = choose|k: int| first_difference(y, z, k);
        if j < k {
            assert(first_difference(x, z, j));
        } else if k < j {
            assert(first_difference(x, z, k));
        } else {
            if j < x.len() {
                T::lemma_transitive(x[j], y[j], z[j]);
            }
            assert(first_difference(x, z, j));
        }
    }

    proof fn lemma_total(x: Self, y: Self) {
        lemma_total_from(x, y, 0);
    }
}

/// Two sequences that agree on their first `k` positions are equal or ordered.
pub proof fn lemma_total_from<T: Ordered>(x: Seq<T>, y: Seq<T>, k: int)
    requires
        0 <= k <= x.len(),
        k <= y.len(),
        forall|i: int| 0 <= i < k ==> x[i] == y[i],
    ensures
        x.precedes(y) || x == y || y.precedes(x),
    decreases x.len() - k,
{
    if k == x.len() {
        if k == y.len() {
            assert(x =~= y);
        } else {
            assert(first_difference(x, y, k));
        }
    } else if k == y.len() {
        assert(first_difference(y, x, k));
    } else {
        T::lemma_total(x[k], y[k]);
        if x[k].precedes(y[k]) {
            assert(first_difference(x, y, k));
        } else if y[k].precedes(x[k]) {
            assert(first_difference(y, x, k));
        } else {
            lemma_total_from(x, y, k + 1);
        }
    }
}

/// No two values precede each other.
pub proof fn lemma_asymmetric<T: Ordered>(x: T, y: T)
    requires
        x.precedes(y),
    ensures
        !y.precedes(x),
        x != y,
{
    T::lemma_irreflexive(x);
    if y.precedes(x) {
        T::lemma_transitive(x, y, x);
    }
}

/// Every element precedes all the elements after it.
pub open spec fn strictly_increasing<T: Ordered>(s: Seq<T>) -> bool {
    forall|i: int, j: int| 0 <= i < j < s.len() ==> #[trigger] s[i].precedes(#[trigger] s[j])
}

/// A strictly increasing sequence holds no value twice.
pub proof fn lemma_increasing_no_duplicates<T: Ordered>(s: Seq<T>)
    requires
        strictly_increasing(s),
    ensures
        s.no_duplicates(),
{
    assert forall|i: int, j: int| 0 <= i < s.len() && 0 <= j < s.len() && i != j implies s[i]
        != s[j] by {
        if i < j {
            lemma_asymmetric(s[i], s[j]);
        } else {
            lemma_asymmetric(s[j], s[i]);
        }
    }
}

/// A finite set has at most one strictly increasing enumeration.
pub proof fn lemma_increasing_unique<T: Ordered>(a: Seq<T>, b: Seq<T>)
    requires
        strictly_increasing(a),
        strictly_increasing(b),
        a.to_set() == b.to_set(),
    ensures
        a == b,
    decreases a.len(),
{
    if a.len() == 0 {
        if b.len() > 0 {
            assert(b.contains(b[0]));
            assert(a.to_set().contains(b[0]));
        }
        assert(a =~= b);
    } else if b.len() == 0 {
        assert(a.contains(a[0]));
        assert(b.to_set().contains(a[0]));
    } else {
        let x = a.last();
        let y = b.last();
        assert(a.contains(x));
        assert(b.to_set().contains(x));
        let j = choose|j: int| 0 <= j < b.len() && b[j] == x;
        assert(b.contains(y));
        assert(a.to_set().contains(y));
        let i = choose|i: int| 0 <= i < a.len() && a[i] == y;
        if j < b.len() - 1 && i < a.len() - 1 {
            assert(b[j].precedes(b[b.len() - 1]));
            assert(a[i].precedes(a[a.len() - 1]));
            lemma_asymmetric(x, y);
        }
        assert(x == y);
        let a0 = a.drop_last();
        let b0 = b.drop_last();
        lemma_increasing_no_duplicates(a);
        lemma_increasing_no_duplicates(b);
        assert forall|z: T| a0.contains(z) <==> b0.contains(z) by {
            if a0.contains(z) {
                let p = choose|p: int| 0 <= p < a0.len() && a0[p] == z;
                assert(a[p] == z);
                assert(a.contains(z));
                assert(b.to_set().contains(z));
                let q = choose|q: int| 0 <= q < b.len() && b[q] == z;
                assert(b0[q] == z);
            }
            if b0.contains(z) {
                let q = choose|q: int| 0 <= q < b0.len() && b0[q] == z;
                assert(b[q] == z);
                assert(b.contains(z));
                assert(a.to_set().contains(z));
                let p = choose|p: int| 0 <= p < a.len() && a[p] == z;
                assert(a0[p] == z);
            }
        }
        assert(a0.to_set() =~= b0.to_set());
        lemma_increasing_unique(a0, b0);
        assert(a =~= a0.push(x));
        assert(b =~= b0.push(y));
    }
}

/// Where `x` belongs in the strictly increasing sequence `s`: everything before
/// position `pos` precedes `x`, and nothing from `pos` on does.
pub open spec fn is_rank<T: Ordered>(s: Seq<T>, x: T, pos: int) -> bool {
    &&& 0 <= pos <= s.len()
    &&& forall|i: int| 0 <= i < pos ==> #[trigger] s[i].precedes(x)
    &&& pos < s.len() ==> !s[pos].precedes(x)
}

/// If the element at `mid` precedes `x`, so does every element before it.
pub proof fn lemma_precedes_up_to<T: Ordered>(s: Seq<T>, x: T, mid: int)
    requires
        strictly_increasing(s),
        0 <= mid < s.len(),
        s[mid].precedes(x),
    ensures
        forall|i: int| 0 <= i <= mid ==> #[trigger] s[i].precedes(x),
{
    assert forall|i: int| 0 <= i <= mid implies #[trigger] s[i].precedes(x) by {
        if i < mid {
            assert(s[i].precedes(s[mid]));
            T::lemma_transitive(s[i], s[mid], x);
        }
    }
}

/// If the element at `mid` does not precede `x`, neither does any element
/// behind it.
pub proof fn lemma_precedes_not_from<T: Ordered>(s: Seq<T>, x: T, mid: int)
    requires
        strictly_increasing(s),
        0 <= mid < s.len(),
        !s[mid].precedes(x),
    ensures
        forall|i: int| mid <= i < s.len() ==> !#[trigger] s[i].precedes(x),
{
    assert forall|i: int| mid <= i < s.len() implies !#[trigger] s[i].precedes(x) by {
        if mid < i && s[i].precedes(x) {
            assert(s[mid].precedes(s[i]));
            T::lemma_transitive(s[mid], s[i], x);
        }
    }
}

/// At its rank, `x` either stands already or is absent from the whole sequence.
pub proof fn lemma_rank_decides_membership<T: Ordered>(s: Seq<T>, x: T, pos: int)
    requires
        strictly_increasing(s),
        is_rank(s, x, pos),
    ensures
        s.contains(x) <==> (pos < s.len() && s[pos] == x),
{
    if s.contains(x) {
        let i = choose|i: int| 0 <= i < s.len() && s[i] == x;
        if i < pos {
            assert(s[i].precedes(x));
            T::lemma_irreflexive(x);
        } else if i > pos {
            assert(s[pos].precedes(s[i]));
        }
    }
}

/// Inserting an absent value at its rank keeps the sequence strictly increasing
/// and adds exactly that value to the set of its elements.
pub proof fn lemma_insert_at_rank<T: Ordered>(s: Seq<T>, x: T, pos: int)
    requires
        strictly_increasing(s),
        is_rank(s, x, pos),
        !s.contains(x),
    ensures
        strictly_increasing(s.insert(pos, x)),
        s.insert(pos, x).to_set() == s.to_set().insert(x),
{
    let t = s.insert(pos, x);
    assert forall|i: int, j: int| 0 <= i < j < t.len() implies #[trigger] t[i].precedes(
        #[trigger] t[j],
    ) by {
        if j < pos {
            assert(s[i].precedes(s[j]));
        } else if j == pos {
            assert(s[i].precedes(x));
        } else if i == pos {
            // t[j] == s[j - 1], which does not precede x and is not x
            T::lemma_total(s[pos], x);
            assert(s.contains(s[pos]));
            if j - 1 > pos {
                assert(s[pos].precedes(s[j - 1]));
                T::lemma_transitive(x, s[pos], s[j - 1]);
            }
        } else if i < pos {
            assert(s[i].precedes(s[j - 1]));
        } else {
            assert(s[i - 1].precedes(s[j - 1]));
        }
    }
    assert forall|z: T| t.to_set().contains(z) <==> s.to_set().insert(x).contains(z) by {
        if t.contains(z) {
            let i = choose|i: int| 0 <= i < t.len() && t[i] == z;
            if i < pos {
                assert(s[i] == z);
                assert(s.contains(z));
            } else if i > pos {
                assert(s[i - 1] == z);
                assert(s.contains(z));
            }
        }
        if s.contains(z) {
            let i = choose|i: int| 0 <= i < s.len() && s[i] == z;
            if i < pos {
                assert(t[i] == z);
            } else {
                assert(t[i + 1] == z);
            }
            assert(t.contains(z));
        }
        if z == x {
            assert(t[pos] == z);
            assert(t.contains(z));
        }
    }
    assert(t.to_set() =~= s.to_set().insert(x));
}

} // verus!
