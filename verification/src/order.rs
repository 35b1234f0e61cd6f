//! Specification-level vocabulary shared by the generators: what it means for
//! an element type's comparison to be a total order, sortedness of element
//! sequences, and lexicographic order on index vectors.

use vstd::prelude::*;
use core::cmp::Ordering;
use vstd::std_specs::cmp::OrdSpec;

verus! {

/// `a` is strictly below `b` under the element type's own comparison.
pub open spec fn spec_lt<T: Ord>(a: T, b: T) -> bool {
    a.cmp_spec(&b) == Ordering::Less
}

/// The element type's `cmp` is trusted by the verifier (`obeys_cmp_spec`) and
/// its specification behaves as a total order that agrees with equality.
/// Integer element types satisfy this by definition.
pub open spec fn ord_total<T: Ord>() -> bool {
    &&& T::obeys_cmp_spec()
    &&& forall|a: T, b: T|
        #![trigger a.cmp_spec(&b)]
        (a.cmp_spec(&b) == Ordering::Equal <==> a == b)
    &&& forall|a: T, b: T|
        #![trigger a.cmp_spec(&b)]
        (a.cmp_spec(&b) == Ordering::Less <==> b.cmp_spec(&a) == Ordering::Greater)
    &&& forall|a: T, b: T, c: T|
        spec_lt(a, b) && spec_lt(b, c) ==> spec_lt(a, c)
}

/// The sequence is strictly ascending under the element order; in particular
/// it holds no duplicates.
pub open spec fn strictly_sorted<T: Ord>(s: Seq<T>) -> bool {
    forall|i: int| #![trigger s[i]] 0 <= i < s.len() - 1 ==> spec_lt(s[i], s[i + 1])
}

/// In a strictly sorted sequence, entries at earlier positions are strictly
/// below entries at later positions.
pub proof fn lemma_sorted_indices<T: Ord>(s: Seq<T>, i: int, j: int)
    requires
        ord_total::<T>(),
        strictly_sorted(s),
        0 <= i < j < s.len(),
    ensures
        spec_lt(s[i], s[j]),
    decreases j - i,
{
    if i + 1 < j {
        lemma_sorted_indices(s, i + 1, j);
        assert(spec_lt(s[i], s[i + 1]));
    }
}

/// Two strictly sorted sequences holding the same values are one and the same
/// sequence. This is the law behind domain normalization: the canonical
/// domain is determined by the collection of input values alone, so
/// normalization is idempotent and insensitive to input order and duplicates.
#[verifier::rlimit(60)]
pub proof fn lemma_sorted_same_values_equal<T: Ord>(a: Seq<T>, b: Seq<T>)
    requires
        ord_total::<T>(),
        strictly_sorted(a),
        strictly_sorted(b),
        forall|x: T| a.contains(x) <==> b.contains(x),
    ensures
        a == b,
    decreases a.len(),
{
    if a.len() == 0 {
        if b.len() > 0 {
            assert(b.contains(b[0]));
            assert(a.contains(b[0]));
        }
        assert(a =~= b);
    } else if b.len() == 0 {
        assert(a.contains(a[0]));
        assert(b.contains(a[0]));
    } else {
        assert(a.contains(a[0]));
        assert(b.contains(b[0]));
        let ka: int = choose|k: int| 0 <= k < b.len() && b[k] == a[0];
        let kb: int = choose|k: int| 0 <= k < a.len() && a[k] == b[0];
        if a[0] != b[0] {
            assert(ka >= 1);
            assert(kb >= 1);
            lemma_sorted_indices(b, 0, ka);
            lemma_sorted_indices(a, 0, kb);
            assert(spec_lt(b[0], a[0]));
            assert(spec_lt(a[0], b[0]));
            assert(false);
        }
        let ta: Seq<T> = a.skip(1);
        let tb: Seq<T> = b.skip(1);
        assert forall|x: T| ta.contains(x) implies tb.contains(x) by {
            let k: int = choose|k: int| 0 <= k < ta.len() && ta[k] == x;
            lemma_sorted_indices(a, 0, k + 1);
            assert(a.contains(x));
            assert(b.contains(x));
            let m: int = choose|m: int| 0 <= m < b.len() && b[m] == x;
            if m == 0 {
                assert(spec_lt(a[0], x));
                assert(x == b[0]);
                assert(a[0].cmp_spec(&x) == Ordering::Equal);
                assert(false);
            }
            assert(tb[m - 1] == x);
        }
        assert forall|x: T| tb.contains(x) implies ta.contains(x) by {
            let k: int = choose|k: int| 0 <= k < tb.len() && tb[k] == x;
            lemma_sorted_indices(b, 0, k + 1);
            assert(b.contains(x));
            assert(a.contains(x));
            let m: int = choose|m: int| 0 <= m < a.len() && a[m] == x;
            if m == 0 {
                assert(spec_lt(b[0], x));
                assert(x == a[0]);
                assert(false);
            }
            assert(ta[m - 1] == x);
        }
        assert forall|i: int| #![trigger ta[i]] 0 <= i < ta.len() - 1 implies spec_lt(
            ta[i],
            ta[i + 1],
        ) by {
            assert(spec_lt(a[i + 1], a[i + 2]));
        }
        assert forall|i: int| #![trigger tb[i]] 0 <= i < tb.len() - 1 implies spec_lt(
            tb[i],
            tb[i + 1],
        ) by {
            assert(spec_lt(b[i + 1], b[i + 2]));
        }
        lemma_sorted_same_values_equal(ta, tb);
        assert forall|i: int| 0 <= i < a.len() implies a[i] == b[i] by {
            if i > 0 {
                assert(ta[i - 1] == tb[i - 1]);
            }
        }
        assert(a =~= b);
    }
}

/// Strict lexicographic order on index vectors: compare position by position
/// from the front; a proper prefix comes before every sequence it prefixes.
pub open spec fn lex_less(a: Seq<usize>, b: Seq<usize>) -> bool
    decreases a.len(),
{
    if b.len() == 0 {
        false
    } else if a.len() == 0 {
        true
    } else if a[0] < b[0] {
        true
    } else if a[0] > b[0] {
        false
    } else {
        lex_less(a.skip(1), b.skip(1))
    }
}

/// Strict lexicographic order on element sequences, under the element type's
/// own comparison: decided at the first position where the sequences differ.
pub open spec fn lex_less_elems<T: Ord>(a: Seq<T>, b: Seq<T>) -> bool
    decreases a.len(),
{
    if b.len() == 0 {
        false
    } else if a.len() == 0 {
        true
    } else if a[0] == b[0] {
        lex_less_elems(a.skip(1), b.skip(1))
    } else {
        spec_lt(a[0], b[0])
    }
}

/// If two index vectors agree strictly before position `i` and differ in
/// favour of `a` at `i`, then `a` is lexicographically below `b`.
pub proof fn lemma_lex_less_from_diff(a: Seq<usize>, b: Seq<usize>, i: int)
    requires
        0 <= i < a.len(),
        i < b.len(),
        forall|j: int| 0 <= j < i ==> a[j] == b[j],
        a[i] < b[i],
    ensures
        lex_less(a, b),
    decreases i,
{
    if i > 0 {
        lemma_lex_less_from_diff(a.skip(1), b.skip(1), i - 1);
    }
}

/// Lexicographic order is irreflexive.
pub proof fn lemma_lex_less_irrefl(a: Seq<usize>)
    ensures
        !lex_less(a, a),
    decreases a.len(),
{
    if a.len() > 0 {
        lemma_lex_less_irrefl(a.skip(1));
    }
}

/// Lexicographic order is transitive.
pub proof fn lemma_lex_less_trans(a: Seq<usize>, b: Seq<usize>, c: Seq<usize>)
    requires
        lex_less(a, b),
        lex_less(b, c),
    ensures
        lex_less(a, c),
    decreases a.len(),
{
    if a.len() > 0 && b.len() > 0 && c.len() > 0 {
        if a[0] == b[0] && b[0] == c[0] {
            lemma_lex_less_trans(a.skip(1), b.skip(1), c.skip(1));
        }
    }
}

/// Any two index vectors are lexicographically comparable or equal.
pub proof fn lemma_lex_total(a: Seq<usize>, b: Seq<usize>)
    ensures
        lex_less(a, b) || lex_less(b, a) || a == b,
    decreases a.len(),
{
    if a.len() == 0 {
        if b.len() == 0 {
            assert(a =~= b);
        }
    } else if b.len() > 0 && a[0] == b[0] {
        lemma_lex_total(a.skip(1), b.skip(1));
        if a.skip(1) == b.skip(1) {
            assert(a.skip(1).len() == a.len() - 1);
            assert(b.skip(1).len() == b.len() - 1);
            assert(a.len() == b.len());
            assert forall|i: int| 0 <= i < a.len() implies a[i] == b[i] by {
                if i > 0 {
                    assert(a.skip(1)[i - 1] == b.skip(1)[i - 1]);
                }
            }
            assert(a =~= b);
        }
    }
}

/// If `a` is lexicographically below `b` and both have the same length, they
/// agree up to some first position where `a` holds the smaller index.
pub proof fn lemma_lex_less_has_diff(a: Seq<usize>, b: Seq<usize>)
    requires
        lex_less(a, b),
        a.len() == b.len(),
    ensures
        exists|i: int|
            0 <= i < a.len() && a[i] < b[i] && (forall|j: int| 0 <= j < i ==> a[j] == b[j]),
    decreases a.len(),
{
    if a[0] < b[0] {
        let i: int = 0;
        assert(0 <= i < a.len() && a[i] < b[i] && (forall|j: int| 0 <= j < i ==> a[j] == b[j]));
    } else {
        lemma_lex_less_has_diff(a.skip(1), b.skip(1));
        let k: int = choose|k: int|
            0 <= k < a.skip(1).len() && a.skip(1)[k] < b.skip(1)[k] && (forall|j: int|
                0 <= j < k ==> a.skip(1)[j] == b.skip(1)[j]);
        let i: int = k + 1;
        assert(a[i] < b[i]);
        assert forall|j: int| 0 <= j < i implies a[j] == b[j] by {
            if j > 0 {
                assert(a.skip(1)[j - 1] == b.skip(1)[j - 1]);
            }
        }
        assert(0 <= i < a.len() && a[i] < b[i] && (forall|j: int| 0 <= j < i ==> a[j] == b[j]));
    }
}

} // verus!
