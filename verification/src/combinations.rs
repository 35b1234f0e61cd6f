//! Generators for combinations over a set of elements, without and with
//! replacement.
//!
//! Both engines walk index vectors over a canonical sorted domain: the
//! combinations engine keeps a strictly increasing position vector, the
//! with-replacement engine a non-decreasing one. Each advance step rewrites
//! the vector to its lexicographic successor of the same length; in all-sizes
//! mode an exhausted length is followed by the least vector one longer.

use vstd::prelude::*;
use vstd::pervasive::VecAdditionalExecFns;
use core::cmp::Ordering;
use vstd::std_specs::cmp::OrdSpec;
use crate::clone_exact;
use crate::order::lemma_lex_less_from_diff;
use crate::order::lemma_lex_less_has_diff;
use crate::order::lemma_lex_total;
use crate::order::lemma_sorted_indices;
use crate::order::lex_less;
use crate::order::lex_less_elems;
use crate::order::ord_total;
use crate::order::spec_lt;
use crate::order::strictly_sorted;

verus! {

/// Every position names an index into a domain of `n` elements.
pub open spec fn in_range(p: Seq<usize>, n: nat) -> bool {
    forall|i: int| #![trigger p[i]] 0 <= i < p.len() ==> p[i] < n
}

/// The position vector of a combination without replacement: strictly
/// ascending.
pub open spec fn strictly_increasing(p: Seq<usize>) -> bool {
    forall|i: int| #![trigger p[i]] 0 <= i < p.len() - 1 ==> p[i] < p[i + 1]
}

/// The position vector of a combination with replacement: non-decreasing.
pub open spec fn non_decreasing(p: Seq<usize>) -> bool {
    forall|i: int| #![trigger p[i]] 0 <= i < p.len() - 1 ==> p[i] <= p[i + 1]
}

/// `[0, 1, ..., k - 1]`: the least strictly increasing vector of length `k`.
pub open spec fn identity_positions(k: nat) -> Seq<usize> {
    Seq::new(k, |i: int| i as usize)
}

/// `[0, 0, ..., 0]`: the least non-decreasing vector of length `k`.
pub open spec fn zero_positions(k: nat) -> Seq<usize> {
    Seq::new(k, |i: int| 0usize)
}

/// In a strictly increasing vector, a later position exceeds an earlier one
/// by at least their distance.
pub proof fn lemma_increasing_gap(p: Seq<usize>, i: int, j: int)
    requires
        strictly_increasing(p),
        0 <= i <= j < p.len(),
    ensures
        p[i] + (j - i) <= p[j],
    decreases j - i,
{
    if i < j {
        lemma_increasing_gap(p, i + 1, j);
    }
}

/// The result of the capture step: the positions mapped over the domain.
pub open spec fn positions_to_values<T>(elements: Seq<T>, p: Seq<usize>) -> Seq<T> {
    Seq::new(p.len(), |i: int| elements[p[i] as int])
}

/// A freshly captured output: element by element a clone of the selected
/// domain values.
pub open spec fn is_capture_of<T: Clone>(elements: Seq<T>, p: Seq<usize>, v: Seq<T>) -> bool {
    &&& v.len() == p.len()
    &&& forall|i: int| #![trigger v[i]] 0 <= i < p.len() ==> cloned(elements[p[i] as int], v[i])
}

/// Converts a vector of elements into a sorted vector containing one of every
/// unique item from the original, ascending under the element type's order.
pub fn iterable_to_sorted_set<T: Ord>(elements: Vec<T>) -> (r: Vec<T>)
    ensures
        ord_total::<T>() ==> {
            &&& strictly_sorted(r@)
            &&& forall|x: T| r@.contains(x) <==> elements@.contains(x)
        },
{
    let ghost all: Seq<T> = elements@;
    let mut remaining = elements;
    let mut out: Vec<T> = Vec::new();
    proof {
        assert(all.take(all.len() as int) =~= all);
    }
    while remaining.len() > 0
        invariant
            remaining@.len() <= all.len(),
            remaining@ == all.take(remaining@.len() as int),
            ord_total::<T>() ==> {
                &&& strictly_sorted(out@)
                &&& forall|x: T|
                    out@.contains(x) <==> all.skip(remaining@.len() as int).contains(x)
            },
        decreases remaining@.len(),
    {
        let ghost m: int = remaining@.len() as int;
        let x = remaining.pop().unwrap();
        proof {
            assert(remaining@ =~= all.take(m - 1));
            assert(x == all[m - 1]);
        }
        let (slot, dup) = find_slot(&out, &x);
        let ghost before: Seq<T> = out@;
        if !dup {
            out.insert(slot, x);
        }
        proof {
            if ord_total::<T>() {
                let j: int = slot as int;
                if !dup {
                    before.insert_ensures(j, x);
                    assert forall|i: int| #![trigger out@[i]]
                        0 <= i < out@.len() - 1 implies spec_lt(out@[i], out@[i + 1]) by {
                        if i + 1 < j {
                            assert(out@[i] == before[i]);
                            assert(out@[i + 1] == before[i + 1]);
                        } else if i + 1 == j {
                            assert(out@[i] == before[i]);
                            assert(out@[i + 1] == x);
                        } else if i == j {
                            assert(out@[i] == x);
                            assert(out@[i + 1] == before[i]);
                        } else {
                            assert(out@[i] == before[i - 1]);
                            assert(out@[i + 1] == before[i]);
                        }
                    }
                    assert forall|y: T| out@.contains(y) implies (before.contains(y) || y
                        == x) by {
                        let k: int = choose|k: int| 0 <= k < out@.len() && out@[k] == y;
                        if k < j {
                            assert(before[k] == y);
                        } else if k > j {
                            assert(before[k - 1] == y);
                        }
                    }
                    assert forall|y: T| before.contains(y) || y == x implies out@.contains(
                        y,
                    ) by {
                        if y == x {
                            assert(out@[j] == y);
                        } else {
                            let k: int = choose|k: int| 0 <= k < before.len() && before[k] == y;
                            if k < j {
                                assert(out@[k] == y);
                            } else {
                                assert(out@[k + 1] == y);
                            }
                        }
                    }
                } else {
                    assert(out@.contains(x));
                }
                assert forall|y: T| out@.contains(y) implies all.skip(m - 1).contains(y) by {
                    if y == x {
                        assert(all.skip(m - 1)[0] == y);
                    } else {
                        assert(before.contains(y));
                        let k: int = choose|k: int| 0 <= k < all.skip(m).len() && all.skip(m)[k]
                            == y;
                        assert(all.skip(m - 1)[k + 1] == y);
                    }
                }
                assert forall|y: T| all.skip(m - 1).contains(y) implies out@.contains(y) by {
                    let tail: Seq<T> = all.skip(m - 1);
                    let k: int = choose|k: int| 0 <= k < tail.len() && tail[k] == y;
                    if k == 0 {
                        assert(y == x);
                        assert(out@.contains(x));
                    } else {
                        assert(all.skip(m)[k - 1] == y);
                        assert(before.contains(y));
                    }
                }
            }
        }
    }
    proof {
        assert(all.skip(0) =~= all);
    }
    out
}

/// A position at index `i` of a strictly increasing vector can advance when
/// incrementing it stays inside the domain and below the right neighbour.
pub open spec fn combo_can_advance_at(p: Seq<usize>, n: nat, i: int) -> bool {
    &&& 0 <= i < p.len()
    &&& p[i] + 1 < n
    &&& (i == p.len() - 1 || p[i] + 1 < p[i + 1])
}

/// The rightmost index at or before `i` that can advance, or `-1` when none
/// can: the index the advance step scans to.
pub open spec fn combo_advance_index(p: Seq<usize>, n: nat, i: int) -> int
    decreases i + 1,
{
    if i < 0 {
        -1
    } else if combo_can_advance_at(p, n, i) {
        i
    } else {
        combo_advance_index(p, n, i - 1)
    }
}

/// The vector after advancing at index `i`: the prefix is kept, position `i`
/// is incremented, and the tail is reset to consecutive following values.
pub open spec fn combo_advanced(p: Seq<usize>, i: int) -> Seq<usize> {
    Seq::new(
        p.len() as nat,
        |j: int| if j < i { p[j] } else { (p[i] + 1 + (j - i)) as usize },
    )
}

/// What one advance-or-grow step does to a combination state: advance at the
/// rightmost advanceable index; else, in all-sizes mode with room to grow,
/// restart with the least vector one longer; else become terminal.
pub open spec fn combo_step(p: Seq<usize>, n: nat, all_sizes: bool) -> (Seq<usize>, bool) {
    let ai = combo_advance_index(p, n, p.len() - 1);
    if ai >= 0 {
        (combo_advanced(p, ai), false)
    } else if all_sizes && p.len() < n {
        (identity_positions((p.len() + 1) as nat), false)
    } else {
        (p, true)
    }
}

/// `combo_advance_index` finds an index that can advance, and everything to
/// its right cannot.
pub proof fn lemma_combo_advance_index(p: Seq<usize>, n: nat, i: int)
    requires
        -1 <= i < p.len(),
    ensures
        -1 <= combo_advance_index(p, n, i) <= i,
        combo_advance_index(p, n, i) >= 0 ==> combo_can_advance_at(
            p,
            n,
            combo_advance_index(p, n, i),
        ),
        forall|j: int| combo_advance_index(p, n, i) < j <= i ==> !combo_can_advance_at(p, n, j),
    decreases i + 1,
{
    if i >= 0 && !combo_can_advance_at(p, n, i) {
        lemma_combo_advance_index(p, n, i - 1);
    }
}

/// An iterator which generates combinations over a set of elements.
pub struct Combinations<T> {
    pub elements: Vec<T>,
    pub positions: Vec<usize>,
    pub all_sizes: bool,
    pub done: bool,
}

impl<T> Combinations<T> {
    /// The number of elements in the canonical domain.
    pub open spec fn domain_len(self) -> nat {
        self.elements@.len()
    }

    /// Structural invariant: the position vector is strictly increasing, and
    /// in range whenever its length is satisfiable at all.
    pub open spec fn wf(self) -> bool {
        &&& strictly_increasing(self.positions@)
        &&& self.positions@.len() <= self.domain_len() ==> in_range(
            self.positions@,
            self.domain_len(),
        )
    }

    /// The generator has nothing further to produce.
    pub open spec fn exhausted(self) -> bool {
        self.done || self.positions@.len() > self.domain_len()
    }
}

impl<T: Ord + Clone> Combinations<T> {
    /// Creates a generator yielding every combination, of every size, of the
    /// unique elements in the given vector.
    pub fn all(elements: Vec<T>) -> (r: Self)
        ensures
            ord_total::<T>() ==> {
                &&& strictly_sorted(r.elements@)
                &&& forall|x: T| r.elements@.contains(x) <==> elements@.contains(x)
            },
            r.positions@ == Seq::<usize>::empty(),
            r.all_sizes == true,
            r.done == false,
            r.wf(),
    {
        let r = Combinations {
            elements: iterable_to_sorted_set(elements),
            positions: Vec::new(),
            all_sizes: true,
            done: false,
        };
        proof {
            assert(r.positions@ =~= Seq::<usize>::empty());
        }
        r
    }

    /// Creates a generator yielding every combination of the given size of
    /// the unique elements in the given vector.
    pub fn of_size(elements: Vec<T>, size: usize) -> (r: Self)
        ensures
            ord_total::<T>() ==> {
                &&& strictly_sorted(r.elements@)
                &&& forall|x: T| r.elements@.contains(x) <==> elements@.contains(x)
            },
            r.positions@ == identity_positions(size as nat),
            r.all_sizes == false,
            r.done == false,
            r.wf(),
    {
        let mut positions: Vec<usize> = Vec::new();
        let mut i: usize = 0;
        while i < size
            invariant
                i <= size,
                positions@ == identity_positions(i as nat),
            decreases size - i,
        {
            positions.push(i);
            proof {
                assert(positions@ =~= identity_positions((i + 1) as nat));
            }
            i = i + 1;
        }
        let r = Combinations {
            elements: iterable_to_sorted_set(elements),
            positions,
            all_sizes: false,
            done: false,
        };
        r
    }

    /// Adds another position indicator to the internal positions list and
    /// resets them to point to the first indices in order. Fails when the
    /// vector already spans the whole domain.
    pub fn move_to_next_set_size(&mut self) -> (r: bool)
        requires
            old(self).wf(),
        ensures
            final(self).wf(),
            final(self).elements == old(self).elements,
            final(self).all_sizes == old(self).all_sizes,
            final(self).done == old(self).done,
            r == (old(self).positions@.len() < old(self).domain_len()),
            r ==> final(self).positions@ == identity_positions(
                (old(self).positions@.len() + 1) as nat,
            ),
            !r ==> *final(self) == *old(self),
    {
        if self.positions.len() >= self.elements.len() {
            return false;
        }
        let length = self.positions.len();
        let mut index: usize = 0;
        while index < length
            invariant
                index <= length,
                self.positions@.len() == length,
                self.elements == old(self).elements,
                self.all_sizes == old(self).all_sizes,
                self.done == old(self).done,
                forall|j: int| #![trigger self.positions@[j]] 0 <= j < index
                    ==> self.positions@[j] == j as usize,
            decreases length - index,
        {
            self.positions.set(index, index);
            index = index + 1;
        }
        self.positions.push(length);
        proof {
            assert(self.positions@ =~= identity_positions((length + 1) as nat));
        }
        true
    }

    /// Increments the internal positions to the indices of the next
    /// combination of the same size: the rightmost position with room to its
    /// right advances, and everything after it is reset to consecutive
    /// values. Fails when the current size is exhausted.
    pub fn move_to_next_position(&mut self) -> (r: bool)
        requires
            old(self).wf(),
        ensures
            final(self).wf(),
            final(self).elements == old(self).elements,
            final(self).all_sizes == old(self).all_sizes,
            final(self).done == old(self).done,
            r == (combo_advance_index(
                old(self).positions@,
                old(self).domain_len(),
                old(self).positions@.len() - 1,
            ) >= 0),
            r ==> final(self).positions@ == combo_advanced(
                old(self).positions@,
                combo_advance_index(
                    old(self).positions@,
                    old(self).domain_len(),
                    old(self).positions@.len() - 1,
                ),
            ),
            !r ==> final(self).positions@ == old(self).positions@,
    {
        let ghost p: Seq<usize> = self.positions@;
        let ghost n: nat = self.elements@.len();
        proof {
            lemma_combo_advance_index(p, n, p.len() - 1);
        }
        if self.elements.len() == 0 {
            return false;
        }
        let length = self.positions.len();
        let n_minus_1 = self.elements.len() - 1;
        let mut idx: usize = length;
        while idx > 0
            invariant
                idx <= length,
                n >= 1,
                n_minus_1 == n - 1,
                length == p.len(),
                self.positions@ == p,
                self.elements == old(self).elements,
                self.all_sizes == old(self).all_sizes,
                self.done == old(self).done,
                old(self).wf(),
                p == old(self).positions@,
                n == old(self).domain_len(),
                forall|j: int| idx <= j < length ==> !combo_can_advance_at(p, n, j),
            decreases idx,
        {
            let index = idx - 1;
            let cur = self.positions[index];
            if cur < n_minus_1 {
                let can = if index == length - 1 {
                    true
                } else {
                    proof {
                        assert(p[index as int] < p[index + 1]);
                    }
                    cur < self.positions[index + 1] - 1
                };
                if can {
                    proof {
                        assert(combo_can_advance_at(p, n, index as int));
                        lemma_combo_advance_index(p, n, length as int - 1);
                    }
                    let mut next_position = cur + 1;
                    self.positions.set(index, next_position);
                    let mut i2 = index + 1;
                    while i2 < length
                        invariant
                            index < i2 <= length,
                            length == p.len(),
                            strictly_increasing(p),
                            n >= 1,
                            combo_can_advance_at(p, n, index as int),
                            cur == p[index as int],
                            self.elements == old(self).elements,
                            self.all_sizes == old(self).all_sizes,
                            self.done == old(self).done,
                            self.positions@.len() == length,
                            next_position == p[index as int] + (i2 - index),
                            next_position <= usize::MAX,
                            forall|j: int| #![trigger self.positions@[j]] 0 <= j < index
                                ==> self.positions@[j] == p[j],
                            forall|j: int| #![trigger self.positions@[j]] index <= j < i2
                                ==> self.positions@[j] == p[index as int] + 1 + (j - index) - 1
                                + 1,
                            forall|j: int| #![trigger self.positions@[j]] i2 <= j < length
                                ==> self.positions@[j] == p[j],
                        decreases length - i2,
                    {
                        proof {
                            assert(p[index as int] + 1 < p[index as int + 1]);
                            lemma_increasing_gap(p, index as int + 1, i2 as int);
                            assert(p[index as int] + (i2 - index) + 1 <= p[i2 as int]);
                        }
                        next_position = next_position + 1;
                        self.positions.set(i2, next_position);
                        i2 = i2 + 1;
                    }
                    proof {
                        assert(self.positions@ =~= combo_advanced(p, index as int));
                        let q = self.positions@;
                        assert forall|j: int| #![trigger q[j]] 0 <= j < q.len() - 1 implies q[j]
                            < q[j + 1] by {
                            if j + 1 < index {
                                assert(q[j] == p[j] && q[j + 1] == p[j + 1]);
                            } else if j + 1 == index {
                                assert(q[j] == p[j] && q[j + 1] == p[index as int] + 1);
                            }
                        }
                        if q.len() <= n {
                            assert forall|j: int| #![trigger q[j]] 0 <= j < q.len() implies q[j]
                                < n by {
                                if j > index {
                                    lemma_increasing_gap(p, index as int + 1, j);
                                    assert(q[j] <= p[j]);
                                }
                            }
                        }
                    }
                    return true;
                }
            }
            proof {
                assert(!combo_can_advance_at(p, n, index as int));
            }
            idx = index;
        }
        proof {
            lemma_combo_advance_index(p, n, length as int - 1);
        }
        false
    }

    /// Returns the current combination, if one exists and is valid: clones of
    /// the domain elements selected by the position vector.
    pub fn get_current_combination(&self) -> (r: Option<Vec<T>>)
        requires
            self.wf(),
        ensures
            r.is_some() <==> !self.exhausted(),
            r matches Some(v) ==> is_capture_of(self.elements@, self.positions@, v@),
    {
        if self.done || self.positions.len() > self.elements.len() {
            return None;
        }
        let mut out: Vec<T> = Vec::new();
        let mut i: usize = 0;
        while i < self.positions.len()
            invariant
                i <= self.positions@.len(),
                self.positions@.len() <= self.elements@.len(),
                self.wf(),
                out@.len() == i,
                forall|j: int| #![trigger out@[j]] 0 <= j < i ==> cloned(
                    self.elements@[self.positions@[j] as int],
                    out@[j],
                ),
            decreases self.positions@.len() - i,
        {
            let pos = self.positions[i];
            out.push(self.elements[pos].clone());
            i = i + 1;
        }
        Some(out)
    }

    /// Returns the current combination and advances the internal state to the
    /// lexicographically next one. Once exhausted, every further call returns
    /// nothing.
    pub fn next(&mut self) -> (r: Option<Vec<T>>)
        requires
            old(self).wf(),
        ensures
            final(self).wf(),
            final(self).elements == old(self).elements,
            final(self).all_sizes == old(self).all_sizes,
            r.is_some() <==> !old(self).exhausted(),
            r matches Some(v) ==> is_capture_of(old(self).elements@, old(self).positions@, v@),
            old(self).done ==> *final(self) == *old(self),
            !old(self).done ==> final(self).positions@ == combo_step(
                old(self).positions@,
                old(self).domain_len(),
                old(self).all_sizes,
            ).0 && final(self).done == combo_step(
                old(self).positions@,
                old(self).domain_len(),
                old(self).all_sizes,
            ).1,
            old(self).exhausted() ==> final(self).exhausted(),
    {
        if self.done {
            return None;
        }
        let combo = self.get_current_combination();
        if self.move_to_next_position() == false {
            if self.all_sizes == false || self.move_to_next_set_size() == false {
                self.done = true;
            }
        }
        proof {
            if old(self).positions@.len() > old(self).domain_len() {
                assert(self.positions@.len() >= old(self).positions@.len());
            }
        }
        combo
    }
}

/// A position of a non-decreasing vector can advance when incrementing it
/// stays inside the domain; no neighbour constraint applies.
pub open spec fn rep_can_advance_at(p: Seq<usize>, n: nat, i: int) -> bool {
    &&& 0 <= i < p.len()
    &&& p[i] + 1 < n
}

/// The rightmost index at or before `i` that can advance, or `-1` when none
/// can.
pub open spec fn rep_advance_index(p: Seq<usize>, n: nat, i: int) -> int
    decreases i + 1,
{
    if i < 0 {
        -1
    } else if rep_can_advance_at(p, n, i) {
        i
    } else {
        rep_advance_index(p, n, i - 1)
    }
}

/// The vector after advancing at index `i`: the prefix is kept, and position
/// `i` together with everything after it becomes the same incremented value.
pub open spec fn rep_advanced(p: Seq<usize>, i: int) -> Seq<usize> {
    Seq::new(p.len() as nat, |j: int| if j < i { p[j] } else { (p[i] + 1) as usize })
}

/// What one advance-or-grow step does to a with-replacement state.
pub open spec fn rep_step(p: Seq<usize>, n: nat, all_sizes: bool) -> (Seq<usize>, bool) {
    let ai = rep_advance_index(p, n, p.len() - 1);
    if ai >= 0 {
        (rep_advanced(p, ai), false)
    } else if all_sizes && p.len() < n {
        (zero_positions((p.len() + 1) as nat), false)
    } else {
        (p, true)
    }
}

/// `rep_advance_index` finds an index that can advance, and everything to its
/// right cannot.
pub proof fn lemma_rep_advance_index(p: Seq<usize>, n: nat, i: int)
    requires
        -1 <= i < p.len(),
    ensures
        -1 <= rep_advance_index(p, n, i) <= i,
        rep_advance_index(p, n, i) >= 0 ==> rep_can_advance_at(p, n, rep_advance_index(p, n, i)),
        forall|j: int| rep_advance_index(p, n, i) < j <= i ==> !rep_can_advance_at(p, n, j),
    decreases i + 1,
{
    if i >= 0 && !rep_can_advance_at(p, n, i) {
        lemma_rep_advance_index(p, n, i - 1);
    }
}

/// An iterator which generates combinations over a set of elements, with
/// replacement.
pub struct CombinationsWithReplacement<T> {
    pub elements: Vec<T>,
    pub positions: Vec<usize>,
    pub all_sizes: bool,
    pub done: bool,
}

impl<T> CombinationsWithReplacement<T> {
    /// The number of elements in the canonical domain.
    pub open spec fn domain_len(self) -> nat {
        self.elements@.len()
    }

    /// Structural invariant: the position vector is non-decreasing, and in
    /// range whenever its length is satisfiable at all.
    pub open spec fn wf(self) -> bool {
        &&& non_decreasing(self.positions@)
        &&& self.positions@.len() <= self.domain_len() ==> in_range(
            self.positions@,
            self.domain_len(),
        )
    }

    /// The generator has nothing further to produce.
    pub open spec fn exhausted(self) -> bool {
        self.done || self.positions@.len() > self.domain_len()
    }
}

impl<T: Ord + Clone> CombinationsWithReplacement<T> {
    /// Creates a generator yielding every combination with replacement, of
    /// every size, of the unique elements in the given vector.
    pub fn all(elements: Vec<T>) -> (r: Self)
        ensures
            ord_total::<T>() ==> {
                &&& strictly_sorted(r.elements@)
                &&& forall|x: T| r.elements@.contains(x) <==> elements@.contains(x)
            },
            r.positions@ == Seq::<usize>::empty(),
            r.all_sizes == true,
            r.done == false,
            r.wf(),
    {
        let r = CombinationsWithReplacement {
            elements: iterable_to_sorted_set(elements),
            positions: Vec::new(),
            all_sizes: true,
            done: false,
        };
        proof {
            assert(r.positions@ =~= Seq::<usize>::empty());
        }
        r
    }

    /// Creates a generator yielding every combination with replacement of the
    /// given size of the unique elements in the given vector.
    pub fn of_size(elements: Vec<T>, size: usize) -> (r: Self)
        ensures
            ord_total::<T>() ==> {
                &&& strictly_sorted(r.elements@)
                &&& forall|x: T| r.elements@.contains(x) <==> elements@.contains(x)
            },
            r.positions@ == zero_positions(size as nat),
            r.all_sizes == false,
            r.done == false,
            r.wf(),
    {
        let mut positions: Vec<usize> = Vec::new();
        let mut i: usize = 0;
        while i < size
            invariant
                i <= size,
                positions@ == zero_positions(i as nat),
            decreases size - i,
        {
            positions.push(0);
            proof {
                assert(positions@ =~= zero_positions((i + 1) as nat));
            }
            i = i + 1;
        }
        let r = CombinationsWithReplacement {
            elements: iterable_to_sorted_set(elements),
            positions,
            all_sizes: false,
            done: false,
        };
        r
    }

    /// Resets every position to the first index and appends one more,
    /// starting the next output size. Fails when the vector already spans the
    /// whole domain.
    pub fn move_to_next_set_size(&mut self) -> (r: bool)
        requires
            old(self).wf(),
        ensures
            final(self).wf(),
            final(self).elements == old(self).elements,
            final(self).all_sizes == old(self).all_sizes,
            final(self).done == old(self).done,
            r == (old(self).positions@.len() < old(self).domain_len()),
            r ==> final(self).positions@ == zero_positions(
                (old(self).positions@.len() + 1) as nat,
            ),
            !r ==> final(self).positions@ == old(self).positions@,
    {
        if self.positions.len() >= self.elements.len() {
            return false;
        }
        let length = self.positions.len();
        let mut index: usize = 0;
        while index < length
            invariant
                index <= length,
                self.positions@.len() == length,
                self.elements == old(self).elements,
                self.all_sizes == old(self).all_sizes,
                self.done == old(self).done,
                forall|j: int| #![trigger self.positions@[j]] 0 <= j < index
                    ==> self.positions@[j] == 0usize,
            decreases length - index,
        {
            self.positions.set(index, 0);
            index = index + 1;
        }
        self.positions.push(0);
        proof {
            assert(self.positions@ =~= zero_positions((length + 1) as nat));
        }
        true
    }

    /// Increments the internal positions to the indices of the next
    /// combination with replacement of the same size: the rightmost position
    /// with room advances, and everything from it on becomes that new value.
    /// Fails when the current size is exhausted.
    pub fn move_to_next_position(&mut self) -> (r: bool)
        requires
            old(self).wf(),
        ensures
            final(self).wf(),
            final(self).elements == old(self).elements,
            final(self).all_sizes == old(self).all_sizes,
            final(self).done == old(self).done,
            r == (rep_advance_index(
                old(self).positions@,
                old(self).domain_len(),
                old(self).positions@.len() - 1,
            ) >= 0),
            r ==> final(self).positions@ == rep_advanced(
                old(self).positions@,
                rep_advance_index(
                    old(self).positions@,
                    old(self).domain_len(),
                    old(self).positions@.len() - 1,
                ),
            ),
            !r ==> final(self).positions@ == old(self).positions@,
    {
        let ghost p: Seq<usize> = self.positions@;
        let ghost n: nat = self.elements@.len();
        proof {
            lemma_rep_advance_index(p, n, p.len() - 1);
        }
        if self.elements.len() == 0 {
            return false;
        }
        let length = self.positions.len();
        let n_minus_1 = self.elements.len() - 1;
        let mut idx: usize = length;
        while idx > 0
            invariant
                idx <= length,
                n >= 1,
                n_minus_1 == n - 1,
                length == p.len(),
                self.positions@ == p,
                self.elements == old(self).elements,
                self.all_sizes == old(self).all_sizes,
                self.done == old(self).done,
                old(self).wf(),
                p == old(self).positions@,
                n == old(self).domain_len(),
                forall|j: int| idx <= j < length ==> !rep_can_advance_at(p, n, j),
            decreases idx,
        {
            let index = idx - 1;
            let cur = self.positions[index];
            if cur < n_minus_1 {
                proof {
                    assert(rep_can_advance_at(p, n, index as int));
                    lemma_rep_advance_index(p, n, length as int - 1);
                }
                let next_position = cur + 1;
                let mut i2 = index;
                while i2 < length
                    invariant
                        index <= i2 <= length,
                        length == p.len(),
                        non_decreasing(p),
                        n >= 1,
                        rep_can_advance_at(p, n, index as int),
                        cur == p[index as int],
                        next_position == cur + 1,
                        self.elements == old(self).elements,
                        self.all_sizes == old(self).all_sizes,
                        self.done == old(self).done,
                        self.positions@.len() == length,
                        forall|j: int| #![trigger self.positions@[j]] 0 <= j < index
                            ==> self.positions@[j] == p[j],
                        forall|j: int| #![trigger self.positions@[j]] index <= j < i2
                            ==> self.positions@[j] == p[index as int] + 1,
                        forall|j: int| #![trigger self.positions@[j]] i2 <= j < length
                            ==> self.positions@[j] == p[j],
                    decreases length - i2,
                {
                    self.positions.set(i2, next_position);
                    i2 = i2 + 1;
                }
                proof {
                    assert(self.positions@ =~= rep_advanced(p, index as int));
                }
                return true;
            }
            proof {
                assert(!rep_can_advance_at(p, n, index as int));
            }
            idx = index;
        }
        proof {
            lemma_rep_advance_index(p, n, length as int - 1);
        }
        false
    }

    /// Returns the current combination, if one exists and is valid: clones of
    /// the domain elements selected by the position vector.
    pub fn get_current_combination(&self) -> (r: Option<Vec<T>>)
        requires
            self.wf(),
        ensures
            r.is_some() <==> !self.exhausted(),
            r matches Some(v) ==> is_capture_of(self.elements@, self.positions@, v@),
    {
        if self.done || self.positions.len() > self.elements.len() {
            return None;
        }
        let mut out: Vec<T> = Vec::new();
        let mut i: usize = 0;
        while i < self.positions.len()
            invariant
                i <= self.positions@.len(),
                self.positions@.len() <= self.elements@.len(),
                self.wf(),
                out@.len() == i,
                forall|j: int| #![trigger out@[j]] 0 <= j < i ==> cloned(
                    self.elements@[self.positions@[j] as int],
                    out@[j],
                ),
            decreases self.positions@.len() - i,
        {
            let pos = self.positions[i];
            out.push(self.elements[pos].clone());
            i = i + 1;
        }
        Some(out)
    }

    /// Returns the current combination and advances the internal state to the
    /// lexicographically next one. Once exhausted, every further call returns
    /// nothing.
    #[verifier::rlimit(30)]
    pub fn next(&mut self) -> (r: Option<Vec<T>>)
        requires
            old(self).wf(),
        ensures
            final(self).wf(),
            final(self).elements == old(self).elements,
            final(self).all_sizes == old(self).all_sizes,
            r.is_some() <==> !old(self).exhausted(),
            r matches Some(v) ==> is_capture_of(old(self).elements@, old(self).positions@, v@),
            old(self).done ==> *final(self) == *old(self),
            !old(self).done ==> final(self).positions@ == rep_step(
                old(self).positions@,
                old(self).domain_len(),
                old(self).all_sizes,
            ).0 && final(self).done == rep_step(
                old(self).positions@,
                old(self).domain_len(),
                old(self).all_sizes,
            ).1,
            old(self).exhausted() ==> final(self).exhausted(),
    {
        if self.done {
            return None;
        }
        let combo = self.get_current_combination();
        if self.move_to_next_position() == false {
            if self.all_sizes == false || self.move_to_next_set_size() == false {
                self.done = true;
            }
        }
        proof {
            if old(self).positions@.len() > old(self).domain_len() {
                assert(self.positions@.len() >= old(self).positions@.len());
            }
        }
        combo
    }
}

/// Finds where `x` belongs in the sorted vector `out`: the index of the first
/// entry not below `x`, along with whether that entry equals `x`.
fn find_slot<T: Ord>(out: &Vec<T>, x: &T) -> (r: (usize, bool))
    ensures
        r.0 <= out@.len(),
        ord_total::<T>() ==> {
            &&& forall|m: int| 0 <= m < r.0 ==> spec_lt(out@[m], *x)
            &&& (r.1 ==> r.0 < out@.len() && out@[r.0 as int] == *x)
            &&& (!r.1 && r.0 < out@.len() ==> spec_lt(*x, out@[r.0 as int]))
        },
{
    let mut j: usize = 0;
    while j < out.len()
        invariant
            j <= out@.len(),
            ord_total::<T>() ==> forall|m: int| 0 <= m < j ==> spec_lt(out@[m], *x),
        decreases out@.len() - j,
    {
        match x.cmp(&out[j]) {
            Ordering::Greater => {
                j = j + 1;
            },
            Ordering::Equal => {
                return (j, true);
            },
            Ordering::Less => {
                return (j, false);
            },
        }
    }
    (j, false)
}

/// Law: a successful advance of the combinations engine keeps the vector a
/// valid combination of the same length and moves it strictly up in
/// lexicographic order. With the successor laws below, consecutive outputs of
/// one size never repeat and appear in strictly increasing order.
pub proof fn lemma_combo_advance_increases(p: Seq<usize>, n: nat)
    requires
        n <= usize::MAX,
        strictly_increasing(p),
        in_range(p, n),
        combo_advance_index(p, n, p.len() - 1) >= 0,
    ensures
        ({
            let q = combo_advanced(p, combo_advance_index(p, n, p.len() - 1));
            &&& q.len() == p.len()
            &&& strictly_increasing(q)
            &&& in_range(q, n)
            &&& lex_less(p, q)
        }),
{
    let ai = combo_advance_index(p, n, p.len() - 1);
    lemma_combo_advance_index(p, n, p.len() - 1);
    let q = combo_advanced(p, ai);
    assert(combo_can_advance_at(p, n, ai));
    assert forall|j: int| #![trigger q[j]] 0 <= j < q.len() - 1 implies q[j] < q[j + 1] by {
        if j + 1 < ai {
            assert(q[j] == p[j] && q[j + 1] == p[j + 1]);
        } else if j + 1 == ai {
            assert(q[j] == p[j] && q[j + 1] == p[ai] + 1);
        } else {
            lemma_increasing_gap(p, ai + 1, j + 1);
            assert(p[ai] + 1 + (j + 1 - ai) <= p[j + 1]);
            if j > ai {
                lemma_increasing_gap(p, ai + 1, j);
                assert(p[ai] + 1 + (j - ai) <= p[j]);
            }
            assert(q[j] == p[ai] + 1 + (j - ai));
            assert(q[j + 1] == p[ai] + 1 + (j + 1 - ai));
        }
    }
    assert forall|j: int| #![trigger q[j]] 0 <= j < q.len() implies q[j] < n by {
        if j > ai {
            lemma_increasing_gap(p, ai + 1, j);
            assert(q[j] <= p[j]);
        }
    }
    lemma_lex_less_from_diff(p, q, ai);
}

/// If a valid combination `q` exceeds `p` at position `j`, some position of
/// `p` at or after `j` can advance.
proof fn lemma_combo_suffix_advanceable(p: Seq<usize>, q: Seq<usize>, n: nat, j: int)
    requires
        strictly_increasing(p),
        in_range(p, n),
        strictly_increasing(q),
        in_range(q, n),
        p.len() == q.len(),
        0 <= j < p.len(),
        q[j] > p[j],
    ensures
        exists|m: int| j <= m < p.len() && combo_can_advance_at(p, n, m),
    decreases p.len() - j,
{
    assert(p[j] + 1 < n) by {
        assert(q[j] < n);
    }
    if j == p.len() - 1 {
        assert(combo_can_advance_at(p, n, j));
    } else if p[j] + 1 < p[j + 1] {
        assert(combo_can_advance_at(p, n, j));
    } else {
        assert(p[j + 1] == p[j] + 1);
        assert(q[j + 1] > q[j]);
        lemma_combo_suffix_advanceable(p, q, n, j + 1);
        let m: int = choose|m: int| j + 1 <= m < p.len() && combo_can_advance_at(p, n, m);
        assert(j <= m < p.len() && combo_can_advance_at(p, n, m));
    }
}

/// Law: a successful advance of the combinations engine yields the immediate
/// lexicographic successor — no valid combination of the same length lies
/// strictly between the old vector and the new one.
pub proof fn lemma_combo_advance_minimal(p: Seq<usize>, q: Seq<usize>, n: nat)
    requires
        n <= usize::MAX,
        strictly_increasing(p),
        in_range(p, n),
        strictly_increasing(q),
        in_range(q, n),
        p.len() == q.len(),
        lex_less(p, q),
        combo_advance_index(p, n, p.len() - 1) >= 0,
    ensures
        ({
            let s = combo_advanced(p, combo_advance_index(p, n, p.len() - 1));
            s == q || lex_less(s, q)
        }),
{
    let ai = combo_advance_index(p, n, p.len() - 1);
    lemma_combo_advance_index(p, n, p.len() - 1);
    let s = combo_advanced(p, ai);
    lemma_lex_less_has_diff(p, q);
    let i0: int = choose|i0: int|
        0 <= i0 < p.len() && p[i0] < q[i0] && (forall|j: int| 0 <= j < i0 ==> p[j] == q[j]);
    if i0 > ai {
        lemma_combo_suffix_advanceable(p, q, n, i0);
        let m: int = choose|m: int| i0 <= m < p.len() && combo_can_advance_at(p, n, m);
        assert(!combo_can_advance_at(p, n, m));
        assert(false);
    } else if i0 < ai {
        assert(s[i0] == p[i0]);
        assert forall|j: int| 0 <= j < i0 implies s[j] == q[j] by {
            assert(s[j] == p[j]);
        }
        lemma_lex_less_from_diff(s, q, i0);
    } else {
        assert(s[ai] == p[ai] + 1);
        assert(q[ai] >= p[ai] + 1);
        if q[ai] > p[ai] + 1 {
            assert forall|j: int| 0 <= j < ai implies s[j] == q[j] by {
                assert(s[j] == p[j]);
            }
            lemma_lex_less_from_diff(s, q, ai);
        } else {
            assert forall|j: int| #![trigger q[j]] ai <= j < q.len() implies q[j] >= s[j] by {
                lemma_increasing_gap(q, ai, j);
            }
            lemma_lex_total(s, q);
            if lex_less(q, s) {
                lemma_lex_less_has_diff(q, s);
                let i1: int = choose|i1: int|
                    0 <= i1 < q.len() && q[i1] < s[i1] && (forall|j: int|
                        0 <= j < i1 ==> q[j] == s[j]);
                if i1 < ai {
                    assert(s[i1] == p[i1]);
                    assert(q[i1] == p[i1]);
                } else {
                    assert(q[i1] >= s[i1]);
                }
                assert(false);
            }
        }
    }
}

/// Law: when no position of a valid combination can advance, the vector is
/// the lexicographically last combination of its length, so the engine is
/// right to end the current size.
pub proof fn lemma_combo_no_advance_is_last(p: Seq<usize>, q: Seq<usize>, n: nat)
    requires
        strictly_increasing(p),
        in_range(p, n),
        strictly_increasing(q),
        in_range(q, n),
        p.len() == q.len(),
        combo_advance_index(p, n, p.len() - 1) == -1,
    ensures
        !lex_less(p, q),
{
    lemma_combo_advance_index(p, n, p.len() - 1);
    if lex_less(p, q) {
        lemma_lex_less_has_diff(p, q);
        let i0: int = choose|i0: int|
            0 <= i0 < p.len() && p[i0] < q[i0] && (forall|j: int| 0 <= j < i0 ==> p[j] == q[j]);
        lemma_combo_suffix_advanceable(p, q, n, i0);
        let m: int = choose|m: int| i0 <= m < p.len() && combo_can_advance_at(p, n, m);
        assert(!combo_can_advance_at(p, n, m));
    }
}

/// Law: `[0, 1, ..., k - 1]` is the least strictly increasing vector of its
/// length, so each output size of the combinations engine starts at its
/// lexicographic minimum.
pub proof fn lemma_identity_positions_least(q: Seq<usize>)
    requires
        strictly_increasing(q),
    ensures
        !lex_less(q, identity_positions(q.len())),
{
    let idn = identity_positions(q.len());
    if lex_less(q, idn) {
        lemma_lex_less_has_diff(q, idn);
        let i0: int = choose|i0: int|
            0 <= i0 < q.len() && q[i0] < idn[i0] && (forall|j: int| 0 <= j < i0 ==> q[j] == idn[j]);
        lemma_increasing_gap(q, 0, i0);
        assert(q[i0] >= i0);
        assert(idn[i0] == i0);
    }
}

/// Law: a successful advance of the with-replacement engine keeps the vector
/// a valid multiset combination of the same length and moves it strictly up
/// in lexicographic order.
pub proof fn lemma_rep_advance_increases(p: Seq<usize>, n: nat)
    requires
        n <= usize::MAX,
        non_decreasing(p),
        in_range(p, n),
        rep_advance_index(p, n, p.len() - 1) >= 0,
    ensures
        ({
            let q = rep_advanced(p, rep_advance_index(p, n, p.len() - 1));
            &&& q.len() == p.len()
            &&& non_decreasing(q)
            &&& in_range(q, n)
            &&& lex_less(p, q)
        }),
{
    let ai = rep_advance_index(p, n, p.len() - 1);
    lemma_rep_advance_index(p, n, p.len() - 1);
    let q = rep_advanced(p, ai);
    assert(rep_can_advance_at(p, n, ai));
    assert forall|j: int| #![trigger q[j]] 0 <= j < q.len() - 1 implies q[j] <= q[j + 1] by {
        if j + 1 < ai {
            assert(q[j] == p[j] && q[j + 1] == p[j + 1]);
        } else if j + 1 == ai {
            assert(q[j] == p[j] && q[j + 1] == p[ai] + 1);
        }
    }
    lemma_lex_less_from_diff(p, q, ai);
}

/// Law: a successful advance of the with-replacement engine yields the
/// immediate lexicographic successor among non-decreasing vectors.
pub proof fn lemma_rep_advance_minimal(p: Seq<usize>, q: Seq<usize>, n: nat)
    requires
        n <= usize::MAX,
        non_decreasing(p),
        in_range(p, n),
        non_decreasing(q),
        in_range(q, n),
        p.len() == q.len(),
        lex_less(p, q),
        rep_advance_index(p, n, p.len() - 1) >= 0,
    ensures
        ({
            let s = rep_advanced(p, rep_advance_index(p, n, p.len() - 1));
            s == q || lex_less(s, q)
        }),
{
    let ai = rep_advance_index(p, n, p.len() - 1);
    lemma_rep_advance_index(p, n, p.len() - 1);
    let s = rep_advanced(p, ai);
    lemma_lex_less_has_diff(p, q);
    let i0: int = choose|i0: int|
        0 <= i0 < p.len() && p[i0] < q[i0] && (forall|j: int| 0 <= j < i0 ==> p[j] == q[j]);
    if i0 > ai {
        assert(!rep_can_advance_at(p, n, i0));
        assert(p[i0] + 1 >= n);
        assert(q[i0] < n);
        assert(false);
    } else if i0 < ai {
        assert(s[i0] == p[i0]);
        assert forall|j: int| 0 <= j < i0 implies s[j] == q[j] by {
            assert(s[j] == p[j]);
        }
        lemma_lex_less_from_diff(s, q, i0);
    } else {
        assert(s[ai] == p[ai] + 1);
        assert(q[ai] >= p[ai] + 1);
        if q[ai] > p[ai] + 1 {
            assert forall|j: int| 0 <= j < ai implies s[j] == q[j] by {
                assert(s[j] == p[j]);
            }
            lemma_lex_less_from_diff(s, q, ai);
        } else {
            assert forall|j: int| #![trigger q[j]] ai <= j < q.len() implies q[j] >= s[j] by {
                lemma_non_decreasing_span(q, ai, j);
            }
            lemma_lex_total(s, q);
            if lex_less(q, s) {
                lemma_lex_less_has_diff(q, s);
                let i1: int = choose|i1: int|
                    0 <= i1 < q.len() && q[i1] < s[i1] && (forall|j: int|
                        0 <= j < i1 ==> q[j] == s[j]);
                if i1 < ai {
                    assert(s[i1] == p[i1]);
                    assert(q[i1] == p[i1]);
                } else {
                    assert(q[i1] >= s[i1]);
                }
                assert(false);
            }
        }
    }
}

/// In a non-decreasing vector, later entries are at least earlier ones.
proof fn lemma_non_decreasing_span(p: Seq<usize>, i: int, j: int)
    requires
        non_decreasing(p),
        0 <= i <= j < p.len(),
    ensures
        p[i] <= p[j],
    decreases j - i,
{
    if i < j {
        lemma_non_decreasing_span(p, i + 1, j);
    }
}

/// Law: when no position of a valid with-replacement combination can
/// advance, the vector is the lexicographically last of its length.
pub proof fn lemma_rep_no_advance_is_last(p: Seq<usize>, q: Seq<usize>, n: nat)
    requires
        non_decreasing(p),
        in_range(p, n),
        non_decreasing(q),
        in_range(q, n),
        p.len() == q.len(),
        rep_advance_index(p, n, p.len() - 1) == -1,
    ensures
        !lex_less(p, q),
{
    lemma_rep_advance_index(p, n, p.len() - 1);
    if lex_less(p, q) {
        lemma_lex_less_has_diff(p, q);
        let i0: int = choose|i0: int|
            0 <= i0 < p.len() && p[i0] < q[i0] && (forall|j: int| 0 <= j < i0 ==> p[j] == q[j]);
        assert(!rep_can_advance_at(p, n, i0));
        assert(q[i0] < n);
    }
}

/// Law: `[0, 0, ..., 0]` is the least vector of its length, so each output
/// size of the with-replacement engine starts at its lexicographic minimum.
pub proof fn lemma_zero_positions_least(q: Seq<usize>)
    ensures
        !lex_less(q, zero_positions(q.len())),
{
    let z = zero_positions(q.len());
    if lex_less(q, z) {
        lemma_lex_less_has_diff(q, z);
        let i0: int = choose|i0: int|
            0 <= i0 < q.len() && q[i0] < z[i0] && (forall|j: int| 0 <= j < i0 ==> q[j] == z[j]);
        assert(z[i0] == 0usize);
    }
}

/// Law: when cloning the element type is exact, a captured output is not
/// merely a sequence of clones: it equals, value for value, the domain
/// elements the position vector selects.
pub proof fn lemma_capture_exact<T: Clone>(elements: Seq<T>, p: Seq<usize>, v: Seq<T>)
    requires
        clone_exact::<T>(),
        is_capture_of(elements, p, v),
    ensures
        v == positions_to_values(elements, p),
{
    let w = positions_to_values(elements, p);
    assert forall|i: int| 0 <= i < v.len() implies v[i] == w[i] by {
        assert(cloned(elements[p[i] as int], v[i]));
    }
    assert(v =~= w);
}

/// Law: every step the combinations engine takes from a valid state either
/// ends the enumeration or moves to a valid state whose position vector is
/// lexicographically greater at the same length, or one position longer.
/// Together with the capture contract of `Combinations::next`, consecutive
/// outputs are strictly increasing — ordered by size, then lexicographically
/// within a size — and never repeat.
pub proof fn lemma_combo_step_in_order(p: Seq<usize>, n: nat, all_sizes: bool)
    requires
        n <= usize::MAX,
        strictly_increasing(p),
        in_range(p, n),
        p.len() <= n,
    ensures
        ({
            let st = combo_step(p, n, all_sizes);
            !st.1 ==> {
                &&& strictly_increasing(st.0)
                &&& in_range(st.0, n)
                &&& st.0.len() <= n
                &&& (st.0.len() == p.len() && lex_less(p, st.0)) || st.0.len() == p.len() + 1
            }
        }),
{
    let ai = combo_advance_index(p, n, p.len() - 1);
    lemma_combo_advance_index(p, n, p.len() - 1);
    if ai >= 0 {
        lemma_combo_advance_increases(p, n);
    } else if all_sizes && p.len() < n {
        let q = identity_positions((p.len() + 1) as nat);
        assert forall|j: int| #![trigger q[j]] 0 <= j < q.len() implies q[j] < n by {
            assert(q[j] == j);
        }
        assert forall|j: int| #![trigger q[j]] 0 <= j < q.len() - 1 implies q[j] < q[j + 1] by {
            assert(q[j] == j && q[j + 1] == j + 1);
        }
    }
}

/// Law: every step the with-replacement engine takes from a valid state
/// either ends the enumeration or moves to a valid state whose position
/// vector is lexicographically greater at the same length, or one position
/// longer. Together with the capture contract of
/// `CombinationsWithReplacement::next`, consecutive outputs are strictly
/// increasing and never repeat.
pub proof fn lemma_rep_step_in_order(p: Seq<usize>, n: nat, all_sizes: bool)
    requires
        n <= usize::MAX,
        non_decreasing(p),
        in_range(p, n),
        p.len() <= n,
    ensures
        ({
            let st = rep_step(p, n, all_sizes);
            !st.1 ==> {
                &&& non_decreasing(st.0)
                &&& in_range(st.0, n)
                &&& st.0.len() <= n
                &&& (st.0.len() == p.len() && lex_less(p, st.0)) || st.0.len() == p.len() + 1
            }
        }),
{
    let ai = rep_advance_index(p, n, p.len() - 1);
    lemma_rep_advance_index(p, n, p.len() - 1);
    if ai >= 0 {
        lemma_rep_advance_increases(p, n);
    } else if all_sizes && p.len() < n {
        let q = zero_positions((p.len() + 1) as nat);
        assert forall|j: int| #![trigger q[j]] 0 <= j < q.len() implies q[j] < n by {
            assert(q[j] == 0usize);
        }
        assert forall|j: int| #![trigger q[j]] 0 <= j < q.len() - 1 implies q[j] <= q[j + 1] by {
            assert(q[j] == 0usize && q[j + 1] == 0usize);
        }
    }
}

/// The binomial coefficient `C(n, k)`, by Pascal's rule.
pub open spec fn choose_count(n: nat, k: nat) -> nat
    decreases n, k,
{
    if k == 0 {
        1
    } else if n == 0 {
        0
    } else {
        choose_count((n - 1) as nat, (k - 1) as nat) + choose_count((n - 1) as nat, k)
    }
}

/// `C(k, k) == 1`: there is one way to take everything.
pub proof fn lemma_choose_all(k: nat)
    ensures
        choose_count(k, k) == 1,
    decreases k,
{
    if k > 0 {
        lemma_choose_all((k - 1) as nat);
        lemma_choose_none((k - 1) as nat, k);
    }
}

/// `C(n, k) == 0` when `k > n`: nothing to take from too few elements.
pub proof fn lemma_choose_none(n: nat, k: nat)
    requires
        k > n,
    ensures
        choose_count(n, k) == 0,
    decreases n,
{
    if n > 0 {
        lemma_choose_none((n - 1) as nat, (k - 1) as nat);
        lemma_choose_none((n - 1) as nat, k);
    }
}

/// The number of valid combinations of `p`'s length, over a domain of `n`
/// elements, that are lexicographically at or above `p`: `p` itself, plus
/// every vector with the same head and a greater tail, plus every vector
/// with a greater head — of which there are `C(n - p[0] - 1, |p|)`, one for
/// each combination drawn from the positions above `p[0]`.
pub open spec fn count_from(p: Seq<usize>, n: nat) -> nat
    decreases p.len(),
{
    if p.len() == 0 {
        1
    } else {
        count_from(p.skip(1), n) + choose_count((n - p[0] - 1) as nat, p.len())
    }
}

/// A block of consecutive positions starting at `c` — the least combination
/// of its length over the positions from `c` on — is at or below exactly the
/// `C(n - c, k)` combinations drawn from those positions.
pub proof fn lemma_count_from_run(p: Seq<usize>, n: nat, c: nat)
    requires
        c + p.len() <= n,
        forall|i: int| #![trigger p[i]] 0 <= i < p.len() ==> p[i] == c + i,
    ensures
        count_from(p, n) == choose_count((n - c) as nat, p.len() as nat),
    decreases p.len(),
{
    if p.len() == 0 {
        assert(choose_count((n - c) as nat, 0) == 1);
    } else {
        let t = p.skip(1);
        assert forall|i: int| #![trigger t[i]] 0 <= i < t.len() implies t[i] == c + 1 + i by {
            assert(p[i + 1] == c + (i + 1));
        }
        lemma_count_from_run(t, n, (c + 1) as nat);
        assert(p[0] == c);
    }
}

/// When no position from `s` on can advance, the suffix is packed against
/// the top of the domain: position `i` holds `n - (len - i)`.
proof fn lemma_packed_suffix(p: Seq<usize>, n: nat, s: int, i: int)
    requires
        strictly_increasing(p),
        in_range(p, n),
        0 <= s <= i < p.len(),
        forall|j: int| s <= j < p.len() ==> !combo_can_advance_at(p, n, j),
    ensures
        p[i] == n - (p.len() - i),
    decreases p.len() - i,
{
    if i == p.len() - 1 {
        assert(!combo_can_advance_at(p, n, i));
        assert(p[i] < n);
    } else {
        lemma_packed_suffix(p, n, s, i + 1);
        assert(!combo_can_advance_at(p, n, i));
        assert(p[i] < p[i + 1]);
    }
}

/// Law: the least combination of each length, `[0, 1, ..., k - 1]`, sits at
/// or below exactly `C(n, k)` combinations: all of them. Together with
/// `lemma_count_from_step` and `lemma_count_from_last`, the engine emits
/// exactly `C(n, k)` combinations of size `k`: the potential `count_from`
/// starts at `C(n, k)`, drops by one with every advance, and reaches `1` at
/// the vector where the advance fails.
pub proof fn lemma_count_from_first(k: nat, n: nat)
    requires
        k <= n,
        n <= usize::MAX,
    ensures
        count_from(identity_positions(k), n) == choose_count(n, k),
{
    let p = identity_positions(k);
    assert forall|i: int| #![trigger p[i]] 0 <= i < p.len() implies p[i] == 0 + i by {}
    lemma_count_from_run(p, n, 0);
}

/// Law: a combination none of whose positions can advance is the last one:
/// the only vector at or above it is itself.
pub proof fn lemma_count_from_last(p: Seq<usize>, n: nat)
    requires
        strictly_increasing(p),
        in_range(p, n),
        combo_advance_index(p, n, p.len() - 1) == -1,
    ensures
        count_from(p, n) == 1,
{
    lemma_combo_advance_index(p, n, p.len() - 1);
    if p.len() > 0 {
        let k = p.len();
        assert forall|i: int| #![trigger p[i]] 0 <= i < k implies p[i] == (n - k) + i by {
            lemma_packed_suffix(p, n, 0, i);
        }
        assert(p[0] < n);
        lemma_count_from_run(p, n, (n - k) as nat);
        lemma_choose_all(k as nat);
    }
}

/// Advancing the tail of a vector advances the whole vector one step later:
/// a position of the tail can advance exactly when the corresponding
/// position of the whole can.
proof fn lemma_can_advance_skip(p: Seq<usize>, n: nat, j: int)
    requires
        p.len() >= 1,
        0 <= j < p.len() - 1,
    ensures
        combo_can_advance_at(p.skip(1), n, j) == combo_can_advance_at(p, n, j + 1),
{
    let t = p.skip(1);
    assert(t[j] == p[j + 1]);
    if j < t.len() - 1 {
        assert(t[j + 1] == p[j + 2]);
    }
}

/// The advance at the head position replaces the whole vector by the run
/// starting one above the old head, lowering the potential by one.
proof fn lemma_count_from_step_head(p: Seq<usize>, n: nat)
    requires
        n <= usize::MAX,
        strictly_increasing(p),
        in_range(p, n),
        combo_advance_index(p, n, p.len() - 1) == 0,
    ensures
        count_from(combo_advanced(p, 0), n) + 1 == count_from(p, n),
{
    lemma_combo_advance_index(p, n, p.len() - 1);
    assert(combo_can_advance_at(p, n, 0));
    let q = combo_advanced(p, 0);
    let k = p.len();
    let t = p.skip(1);
    if k > 1 {
        assert forall|i: int| #![trigger t[i]] 0 <= i < t.len() implies t[i] == (n - (k - 1))
            + i by {
            lemma_packed_suffix(p, n, 1, i + 1);
        }
        assert(p[1] < n);
        assert(n >= k - 1) by {
            assert(t[0] == (n - (k - 1)) + 0);
        }
        lemma_count_from_run(t, n, (n - (k - 1)) as nat);
        lemma_choose_all((k - 1) as nat);
    }
    assert(count_from(t, n) == 1);
    assert(count_from(p, n) == 1 + choose_count((n - p[0] - 1) as nat, k as nat));
    assert(p[0] + 1 + k <= n) by {
        if k > 1 {
            assert(p[0] + 1 < p[1]);
            lemma_packed_suffix(p, n, 1, 1);
        }
    }
    assert forall|i: int| #![trigger q[i]] 0 <= i < q.len() implies q[i] == (p[0] + 1) + i by {}
    lemma_count_from_run(q, n, (p[0] + 1) as nat);
    assert(count_from(q, n) == choose_count((n - p[0] - 1) as nat, k as nat));
}

/// An advance below the head is an advance of the tail, one position
/// earlier, under the same head.
proof fn lemma_advance_of_tail(p: Seq<usize>, n: nat)
    requires
        strictly_increasing(p),
        in_range(p, n),
        combo_advance_index(p, n, p.len() - 1) >= 1,
    ensures
        strictly_increasing(p.skip(1)),
        in_range(p.skip(1), n),
        combo_advance_index(p.skip(1), n, p.skip(1).len() - 1) == combo_advance_index(
            p,
            n,
            p.len() - 1,
        ) - 1,
        combo_advanced(p, combo_advance_index(p, n, p.len() - 1)).skip(1) == combo_advanced(
            p.skip(1),
            combo_advance_index(p, n, p.len() - 1) - 1,
        ),
{
    let ai = combo_advance_index(p, n, p.len() - 1);
    lemma_combo_advance_index(p, n, p.len() - 1);
    assert(combo_can_advance_at(p, n, ai));
    let t = p.skip(1);
    let q = combo_advanced(p, ai);
    assert forall|i: int| #![trigger t[i]] 0 <= i < t.len() - 1 implies t[i] < t[i + 1] by {
        assert(t[i] == p[i + 1] && t[i + 1] == p[i + 2]);
    }
    assert forall|i: int| #![trigger t[i]] 0 <= i < t.len() implies t[i] < n by {
        assert(t[i] == p[i + 1]);
    }
    let ait = combo_advance_index(t, n, t.len() - 1);
    lemma_combo_advance_index(t, n, t.len() - 1);
    assert(ait == ai - 1) by {
        lemma_can_advance_skip(p, n, ai - 1);
        if ait > ai - 1 {
            lemma_can_advance_skip(p, n, ait);
            assert(combo_can_advance_at(p, n, ait + 1));
            assert(false);
        }
        if ait < ai - 1 {
            assert(combo_can_advance_at(t, n, ai - 1));
            assert(false);
        }
    }
    assert(q.skip(1) =~= combo_advanced(t, ai - 1)) by {
        assert forall|j: int| 0 <= j < q.skip(1).len() implies q.skip(1)[j] == combo_advanced(
            t,
            ai - 1,
        )[j] by {
            assert(q.skip(1)[j] == q[j + 1]);
            if j < ai - 1 {
                assert(t[j] == p[j + 1]);
            } else {
                assert(t[ai - 1] == p[ai]);
            }
        }
    }
}

/// Law: each advance of the combinations engine lowers the `count_from`
/// potential by exactly one — the advance skips nothing.
pub proof fn lemma_count_from_step(p: Seq<usize>, n: nat)
    requires
        n <= usize::MAX,
        strictly_increasing(p),
        in_range(p, n),
        combo_advance_index(p, n, p.len() - 1) >= 0,
    ensures
        count_from(combo_advanced(p, combo_advance_index(p, n, p.len() - 1)), n) + 1
            == count_from(p, n),
    decreases p.len(),
{
    let ai = combo_advance_index(p, n, p.len() - 1);
    let q = combo_advanced(p, ai);
    let k = p.len();
    if ai == 0 {
        lemma_count_from_step_head(p, n);
    } else {
        lemma_advance_of_tail(p, n);
        lemma_count_from_step(p.skip(1), n);
        assert(q[0] == p[0]);
        assert(count_from(p, n) == count_from(p.skip(1), n) + choose_count(
            (n - p[0] - 1) as nat,
            k as nat,
        ));
        assert(count_from(q, n) == count_from(q.skip(1), n) + choose_count(
            (n - q[0] - 1) as nat,
            q.len() as nat,
        ));
    }
}

/// `2^n`.
pub open spec fn pow2(n: nat) -> nat
    decreases n,
{
    if n == 0 {
        1
    } else {
        2 * pow2((n - 1) as nat)
    }
}

/// The partial row sum of Pascal's triangle: `C(n, 0) + ... + C(n, k)`.
pub open spec fn choose_sum(n: nat, k: nat) -> nat
    decreases k,
{
    if k == 0 {
        1
    } else {
        choose_sum(n, (k - 1) as nat) + choose_count(n, k)
    }
}

/// Pascal's rule lifted to partial row sums.
proof fn lemma_choose_sum_split(n: nat, k: nat)
    requires
        n >= 1,
        k >= 1,
    ensures
        choose_sum(n, k) == choose_sum((n - 1) as nat, (k - 1) as nat) + choose_sum(
            (n - 1) as nat,
            k,
        ),
    decreases k,
{
    if k == 1 {
        assert(choose_count(n, 1) == choose_count((n - 1) as nat, 0) + choose_count(
            (n - 1) as nat,
            1,
        ));
        assert(choose_count((n - 1) as nat, 0) == 1);
        assert(choose_sum(n, 0) == 1);
        assert(choose_sum((n - 1) as nat, 0) == 1);
        assert(choose_sum(n, 1) == 1 + choose_count(n, 1));
        assert(choose_sum((n - 1) as nat, 1) == 1 + choose_count((n - 1) as nat, 1));
    } else {
        lemma_choose_sum_split(n, (k - 1) as nat);
        assert(choose_sum(n, k) == choose_sum(n, (k - 1) as nat) + choose_count(n, k));
        assert(choose_count(n, k) == choose_count((n - 1) as nat, (k - 1) as nat) + choose_count(
            (n - 1) as nat,
            k,
        ));
        assert(choose_sum((n - 1) as nat, (k - 1) as nat) == choose_sum(
            (n - 1) as nat,
            (k - 2) as nat,
        ) + choose_count((n - 1) as nat, (k - 1) as nat));
        assert(choose_sum((n - 1) as nat, k) == choose_sum((n - 1) as nat, (k - 1) as nat)
            + choose_count((n - 1) as nat, k));
    }
}

/// Law: a full row of Pascal's triangle sums to `2^n`. The all-sizes
/// combinations engine walks the sizes `0..=n` in turn, emitting `C(n, k)`
/// outputs at size `k`; in total it emits the `2^n` subsets of the domain.
pub proof fn lemma_choose_sum_row(n: nat)
    ensures
        choose_sum(n, n) == pow2(n),
    decreases n,
{
    if n >= 1 {
        lemma_choose_sum_split(n, n);
        lemma_choose_sum_row((n - 1) as nat);
        assert(choose_sum((n - 1) as nat, n) == choose_sum((n - 1) as nat, (n - 1) as nat)
            + choose_count((n - 1) as nat, n));
        lemma_choose_none((n - 1) as nat, n);
    }
}

/// The number of valid multiset combinations of `p`'s length, over a domain
/// of `n` elements, that are lexicographically at or above `p`: `p` itself,
/// plus every vector with the same head and a greater tail, plus the
/// `C((n - p[0] - 1) + |p| - 1, |p|)` vectors with a greater head — one for
/// each multiset drawn from the positions above `p[0]`.
pub open spec fn count_from_rep(p: Seq<usize>, n: nat) -> nat
    decreases p.len(),
{
    if p.len() == 0 {
        1
    } else {
        count_from_rep(p.skip(1), n) + choose_count(
            (n - p[0] - 1 + p.len() - 1) as nat,
            p.len() as nat,
        )
    }
}

/// A constant block at `c` — the least multiset combination of its length
/// over the positions from `c` on — is at or below exactly the
/// `C((n - c) + k - 1, k)` multisets drawn from those positions.
pub proof fn lemma_count_from_rep_run(p: Seq<usize>, n: nat, c: nat)
    requires
        c < n,
        forall|i: int| #![trigger p[i]] 0 <= i < p.len() ==> p[i] == c,
    ensures
        count_from_rep(p, n) == choose_count((n - c + p.len() - 1) as nat, p.len() as nat),
    decreases p.len(),
{
    if p.len() == 0 {
        assert(choose_count((n - c - 1) as nat, 0) == 1);
    } else {
        let t = p.skip(1);
        assert forall|i: int| #![trigger t[i]] 0 <= i < t.len() implies t[i] == c by {
            assert(p[i + 1] == c);
        }
        lemma_count_from_rep_run(t, n, c);
        assert(p[0] == c);
    }
}

/// Law: the least multiset combination of each length, all zeroes, sits at
/// or below exactly `C(n + k - 1, k)` vectors: every multiset combination of
/// size `k`. Together with `lemma_count_from_rep_step` and
/// `lemma_count_from_rep_last`, the with-replacement engine emits exactly
/// `C(n + k - 1, k)` combinations of a satisfiable size `k`.
pub proof fn lemma_count_from_rep_first(k: nat, n: nat)
    requires
        n >= 1,
    ensures
        count_from_rep(zero_positions(k), n) == choose_count((n + k - 1) as nat, k),
{
    let p = zero_positions(k);
    assert forall|i: int| #![trigger p[i]] 0 <= i < p.len() implies p[i] == 0 by {}
    lemma_count_from_rep_run(p, n, 0);
}

/// Law: a multiset combination none of whose positions can advance is the
/// last one: the only vector at or above it is itself.
pub proof fn lemma_count_from_rep_last(p: Seq<usize>, n: nat)
    requires
        non_decreasing(p),
        in_range(p, n),
        rep_advance_index(p, n, p.len() - 1) == -1,
    ensures
        count_from_rep(p, n) == 1,
{
    lemma_rep_advance_index(p, n, p.len() - 1);
    if p.len() > 0 {
        let k = p.len();
        assert forall|i: int| #![trigger p[i]] 0 <= i < k implies p[i] == n - 1 by {
            assert(!rep_can_advance_at(p, n, i));
        }
        assert(p[0] < n);
        lemma_count_from_rep_run(p, n, (n - 1) as nat);
        lemma_choose_all(k as nat);
    }
}

/// The advance at the head position replaces the whole vector by the
/// constant block one above the old head, lowering the potential by one.
proof fn lemma_count_from_rep_step_head(p: Seq<usize>, n: nat)
    requires
        n <= usize::MAX,
        non_decreasing(p),
        in_range(p, n),
        rep_advance_index(p, n, p.len() - 1) == 0,
    ensures
        count_from_rep(rep_advanced(p, 0), n) + 1 == count_from_rep(p, n),
{
    lemma_rep_advance_index(p, n, p.len() - 1);
    assert(rep_can_advance_at(p, n, 0));
    let q = rep_advanced(p, 0);
    let k = p.len();
    let t = p.skip(1);
    if k > 1 {
        assert forall|i: int| #![trigger t[i]] 0 <= i < t.len() implies t[i] == n - 1 by {
            assert(!rep_can_advance_at(p, n, i + 1));
            assert(p[i + 1] == n - 1);
        }
        lemma_count_from_rep_run(t, n, (n - 1) as nat);
        lemma_choose_all((k - 1) as nat);
    }
    assert(count_from_rep(t, n) == 1);
    assert(count_from_rep(p, n) == 1 + choose_count((n - p[0] - 1 + k - 1) as nat, k as nat));
    assert forall|i: int| #![trigger q[i]] 0 <= i < q.len() implies q[i] == p[0] + 1 by {}
    lemma_count_from_rep_run(q, n, (p[0] + 1) as nat);
    assert(count_from_rep(q, n) == choose_count((n - p[0] - 1 + k - 1) as nat, k as nat));
}

/// An advance below the head is an advance of the tail, one position
/// earlier, under the same head.
proof fn lemma_rep_advance_of_tail(p: Seq<usize>, n: nat)
    requires
        non_decreasing(p),
        in_range(p, n),
        rep_advance_index(p, n, p.len() - 1) >= 1,
    ensures
        non_decreasing(p.skip(1)),
        in_range(p.skip(1), n),
        rep_advance_index(p.skip(1), n, p.skip(1).len() - 1) == rep_advance_index(
            p,
            n,
            p.len() - 1,
        ) - 1,
        rep_advanced(p, rep_advance_index(p, n, p.len() - 1)).skip(1) == rep_advanced(
            p.skip(1),
            rep_advance_index(p, n, p.len() - 1) - 1,
        ),
{
    let ai = rep_advance_index(p, n, p.len() - 1);
    lemma_rep_advance_index(p, n, p.len() - 1);
    assert(rep_can_advance_at(p, n, ai));
    let t = p.skip(1);
    let q = rep_advanced(p, ai);
    assert forall|i: int| #![trigger t[i]] 0 <= i < t.len() - 1 implies t[i] <= t[i + 1] by {
        assert(t[i] == p[i + 1] && t[i + 1] == p[i + 2]);
    }
    assert forall|i: int| #![trigger t[i]] 0 <= i < t.len() implies t[i] < n by {
        assert(t[i] == p[i + 1]);
    }
    let ait = rep_advance_index(t, n, t.len() - 1);
    lemma_rep_advance_index(t, n, t.len() - 1);
    assert(ait == ai - 1) by {
        assert(t[ai - 1] == p[ai as int]);
        if ait > ai - 1 {
            assert(t[ait] == p[ait + 1]);
            assert(rep_can_advance_at(p, n, ait + 1));
            assert(false);
        }
        if ait < ai - 1 {
            assert(rep_can_advance_at(t, n, ai - 1));
            assert(false);
        }
    }
    assert(q.skip(1) =~= rep_advanced(t, ai - 1)) by {
        assert forall|j: int| 0 <= j < q.skip(1).len() implies q.skip(1)[j] == rep_advanced(
            t,
            ai - 1,
        )[j] by {
            assert(q.skip(1)[j] == q[j + 1]);
            if j < ai - 1 {
                assert(t[j] == p[j + 1]);
            } else {
                assert(t[ai - 1] == p[ai as int]);
            }
        }
    }
}

/// Law: each advance of the with-replacement engine lowers the
/// `count_from_rep` potential by exactly one — the advance skips nothing.
pub proof fn lemma_count_from_rep_step(p: Seq<usize>, n: nat)
    requires
        n <= usize::MAX,
        non_decreasing(p),
        in_range(p, n),
        rep_advance_index(p, n, p.len() - 1) >= 0,
    ensures
        count_from_rep(rep_advanced(p, rep_advance_index(p, n, p.len() - 1)), n) + 1
            == count_from_rep(p, n),
    decreases p.len(),
{
    let ai = rep_advance_index(p, n, p.len() - 1);
    let q = rep_advanced(p, ai);
    let k = p.len();
    if ai == 0 {
        lemma_count_from_rep_step_head(p, n);
    } else {
        lemma_rep_advance_of_tail(p, n);
        lemma_count_from_rep_step(p.skip(1), n);
        assert(q[0] == p[0]);
        assert(count_from_rep(p, n) == count_from_rep(p.skip(1), n) + choose_count(
            (n - p[0] - 1 + k - 1) as nat,
            k as nat,
        ));
        assert(count_from_rep(q, n) == count_from_rep(q.skip(1), n) + choose_count(
            (n - q[0] - 1 + q.len() - 1) as nat,
            q.len() as nat,
        ));
    }
}

/// Law: two outputs captured from consecutive states of the combinations
/// engine never repeat and appear in increasing order — the later one is
/// longer, or lexicographically greater under the element order. `pre` and
/// `post` are the states around one advance, `u` and `v` the outputs each
/// would hand out.
pub proof fn lemma_combo_outputs_increase<T: Ord + Clone>(
    pre: Combinations<T>,
    post: Combinations<T>,
    u: Seq<T>,
    v: Seq<T>,
)
    requires
        ord_total::<T>(),
        clone_exact::<T>(),
        pre.wf(),
        strictly_sorted(pre.elements@),
        !pre.exhausted(),
        !post.exhausted(),
        post.elements@ == pre.elements@,
        post.positions@ == combo_step(pre.positions@, pre.domain_len(), pre.all_sizes).0,
        post.done == combo_step(pre.positions@, pre.domain_len(), pre.all_sizes).1,
        is_capture_of(pre.elements@, pre.positions@, u),
        is_capture_of(post.elements@, post.positions@, v),
    ensures
        u.len() < v.len() || lex_less_elems(u, v),
{
    lemma_capture_exact(pre.elements@, pre.positions@, u);
    lemma_capture_exact(post.elements@, post.positions@, v);
    assert(pre.domain_len() <= usize::MAX) by {
        assert(pre.elements.len() == pre.elements@.len());
    }
    lemma_combo_step_in_order(pre.positions@, pre.domain_len(), pre.all_sizes);
    if v.len() == u.len() {
        lemma_lex_less_maps_to_values(pre.elements@, pre.positions@, post.positions@);
    }
}

/// Law: the with-replacement counterpart of `lemma_combo_outputs_increase`:
/// consecutive outputs never repeat and appear in increasing order.
pub proof fn lemma_rep_outputs_increase<T: Ord + Clone>(
    pre: CombinationsWithReplacement<T>,
    post: CombinationsWithReplacement<T>,
    u: Seq<T>,
    v: Seq<T>,
)
    requires
        ord_total::<T>(),
        clone_exact::<T>(),
        pre.wf(),
        strictly_sorted(pre.elements@),
        !pre.exhausted(),
        !post.exhausted(),
        post.elements@ == pre.elements@,
        post.positions@ == rep_step(pre.positions@, pre.domain_len(), pre.all_sizes).0,
        post.done == rep_step(pre.positions@, pre.domain_len(), pre.all_sizes).1,
        is_capture_of(pre.elements@, pre.positions@, u),
        is_capture_of(post.elements@, post.positions@, v),
    ensures
        u.len() < v.len() || lex_less_elems(u, v),
{
    lemma_capture_exact(pre.elements@, pre.positions@, u);
    lemma_capture_exact(post.elements@, post.positions@, v);
    assert(pre.domain_len() <= usize::MAX) by {
        assert(pre.elements.len() == pre.elements@.len());
    }
    lemma_rep_step_in_order(pre.positions@, pre.domain_len(), pre.all_sizes);
    if v.len() == u.len() {
        lemma_lex_less_maps_to_values(pre.elements@, pre.positions@, post.positions@);
    }
}

/// Law: mapping position vectors through a strictly sorted domain preserves
/// strict lexicographic order, so the combination engines' outputs appear in
/// strictly increasing element order whenever the element order is total.
pub proof fn lemma_lex_less_maps_to_values<T: Ord>(
    elements: Seq<T>,
    p: Seq<usize>,
    q: Seq<usize>,
)
    requires
        ord_total::<T>(),
        strictly_sorted(elements),
        in_range(p, elements.len()),
        in_range(q, elements.len()),
        lex_less(p, q),
    ensures
        lex_less_elems(positions_to_values(elements, p), positions_to_values(elements, q)),
    decreases p.len(),
{
    let a = positions_to_values(elements, p);
    let b = positions_to_values(elements, q);
    if p.len() == 0 {
        assert(b.len() > 0);
    } else {
        if p[0] < q[0] {
            lemma_sorted_indices(elements, p[0] as int, q[0] as int);
            assert(spec_lt(a[0], b[0]));
            assert(a[0] != b[0]) by {
                assert(a[0].cmp_spec(&b[0]) == core::cmp::Ordering::Less);
            }
        } else {
            assert(p[0] == q[0]);
            assert(a[0] == b[0]);
            lemma_lex_less_maps_to_values(elements, p.skip(1), q.skip(1));
            assert(positions_to_values(elements, p.skip(1)) =~= a.skip(1));
            assert(positions_to_values(elements, q.skip(1)) =~= b.skip(1));
        }
    }
}

} // verus!
