//! Combinatorial tools, functions, and generators.
//!
//! The crate offers three pull-based sequence generators — combinations
//! without replacement, combinations with replacement, and lexicographically
//! ordered permutations — together with a couple of small numeric helpers.

pub mod combinations;
pub mod permutations;
pub mod order;

pub use crate::combinations::Combinations;
pub use crate::combinations::CombinationsWithReplacement;
pub use crate::combinations::iterable_to_sorted_set;
pub use crate::permutations::Permutations;

use vstd::prelude::*;
use crate::order::ord_total;
use crate::order::strictly_sorted;

verus! {

/// Cloning a value of the element type always reproduces it exactly.
/// Primitive element types satisfy this; generators over such types hand out
/// outputs equal, value for value, to the selected domain elements.
pub open spec fn clone_exact<T: Clone>() -> bool {
    forall|a: T, b: T| #[trigger] cloned(a, b) ==> a == b
}

/// `n!` as a mathematical integer: the product of `1..=n`.
pub open spec fn spec_factorial(n: nat) -> nat
    decreases n,
{
    if n == 0 {
        1
    } else {
        n * spec_factorial((n - 1) as nat)
    }
}

/// The `n`th triangle number as a mathematical integer: `n * (n + 1) / 2`.
pub open spec fn spec_triangle(n: nat) -> nat {
    n * (n + 1) / 2
}

proof fn lemma_factorial_monotonic(i: nat, n: nat)
    requires
        i <= n,
    ensures
        spec_factorial(i) <= spec_factorial(n),
    decreases n,
{
    if i < n {
        lemma_factorial_monotonic(i, (n - 1) as nat);
        assert(spec_factorial(n) == n * spec_factorial((n - 1) as nat));
        assert(spec_factorial((n - 1) as nat) <= n * spec_factorial((n - 1) as nat))
            by (nonlinear_arith)
            requires n >= 1, spec_factorial((n - 1) as nat) >= 0,
        ;
    }
}

/// Returns the `n`th triangle number.
pub fn triangle_number(n: usize) -> (r: usize)
    requires
        n * (n + 1) <= usize::MAX,
    ensures
        r == spec_triangle(n as nat),
{
    assert(n + 1 <= usize::MAX) by (nonlinear_arith)
        requires n * (n + 1) <= usize::MAX,
    ;
    n * (n + 1) / 2
}

/// Returns `n` factorial.
pub fn factorial(n: usize) -> (r: usize)
    requires
        spec_factorial(n as nat) <= usize::MAX,
    ensures
        r == spec_factorial(n as nat),
{
    let mut r: usize = 1;
    let mut i: usize = 0;
    while i < n
        invariant
            i <= n,
            r == spec_factorial(i as nat),
            spec_factorial(n as nat) <= usize::MAX,
        decreases n - i,
    {
        i = i + 1;
        assert(i * r == spec_factorial(i as nat));
        proof {
            lemma_factorial_monotonic(i as nat, n as nat);
        }
        r = r * i;
    }
    r
}

/// Returns the powerset of the elements in the given vector: every
/// combination of every size of its unique elements.
pub fn powerset<T: Ord + Clone>(elements: Vec<T>) -> (r: Combinations<T>)
    ensures
        ord_total::<T>() ==> {
            &&& strictly_sorted(r.elements@)
            &&& forall|x: T| r.elements@.contains(x) <==> elements@.contains(x)
        },
        r.positions@ == Seq::<usize>::empty(),
        r.all_sizes == true,
        r.done == false,
        r.wf(),
{
    Combinations::all(elements)
}

} // verus!
