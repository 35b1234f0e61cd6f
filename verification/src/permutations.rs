//! A generator for permutations in lexicographic order over a list of
//! elements.
//!
//! The engine keeps a doubly linked "available list" over the domain indices
//! `1..=n` (index `0` is a sentinel head) together with a backtracking stack
//! holding the prefix chosen so far. Removing a node only repoints its
//! neighbours; the node keeps its own links as a snapshot of the list at
//! removal time, so nodes must be re-added in exactly the reverse order of
//! removal. That discipline is enforced here by a contract: the list carries a
//! ghost stack of removed indices, and `add` and `swap_for_next` demand the
//! most recently removed one.

use vstd::prelude::*;
use crate::clone_exact;
use crate::order::lemma_lex_less_from_diff;
use crate::order::lemma_lex_less_has_diff;
use crate::order::lemma_lex_less_irrefl;
use crate::order::lemma_lex_less_trans;
use crate::order::lex_less;

verus! {

/// One node of the available list: links to the neighbouring available
/// indices, absent at a terminus.
#[derive(Clone, Copy)]
pub struct Entry {
    pub prev: Option<usize>,
    pub next: Option<usize>,
}

/// A doubly linked free list over the indices `1..=n`, with index `0` acting
/// as a sentinel head so that removing the first node works like removing any
/// other.
pub struct AvailableList {
    pub entries: Vec<Entry>,
    pub removed: Ghost<Seq<usize>>,
}

/// Index `k` is available: a real index that has not been removed.
pub open spec fn present_in(n: nat, rem: Seq<usize>, k: int) -> bool {
    1 <= k <= n && !rem.contains(k as usize)
}

/// The stored backward link of node `k` is right for the state `rem`: it
/// names the nearest available index (or the head) below `k`.
pub open spec fn pred_link_ok(n: nat, rem: Seq<usize>, k: int, link: Option<usize>) -> bool {
    match link {
        Some(j) => {
            &&& (j as int) < k
            &&& (j == 0 || present_in(n, rem, j as int))
            &&& forall|m: int| j < m < k ==> !present_in(n, rem, m)
        },
        None => k == 0,
    }
}

/// The stored forward link of node `k` is right for the state `rem`: it names
/// the nearest available index above `k`, absent when there is none.
pub open spec fn succ_link_ok(n: nat, rem: Seq<usize>, k: int, link: Option<usize>) -> bool {
    match link {
        Some(j) => {
            &&& k < j as int
            &&& present_in(n, rem, j as int)
            &&& forall|m: int| k < m < j ==> !present_in(n, rem, m)
        },
        None => forall|m: int| k < m <= n ==> !present_in(n, rem, m),
    }
}

/// Removing one more index makes exactly that index unavailable.
proof fn lemma_present_push(n: nat, rem: Seq<usize>, i: usize)
    requires
        n <= usize::MAX,
    ensures
        forall|m: int|
            #![trigger present_in(n, rem.push(i), m)]
            present_in(n, rem.push(i), m) <==> (present_in(n, rem, m) && m != i),
{
    let rem2 = rem.push(i);
    assert(rem2.len() == rem.len() + 1);
    assert(rem2[rem.len() as int] == i);
    assert(forall|j: int| 0 <= j < rem.len() ==> #[trigger] rem2[j] == rem[j]);
    assert forall|m: int|
        present_in(n, rem2, m) <==> (present_in(n, rem, m) && m != i) by {
        if 1 <= m <= n {
            if rem.contains(m as usize) {
                let j: int = choose|j: int| 0 <= j < rem.len() && rem[j] == m as usize;
                assert(rem2[j] == m as usize);
            }
            if m == i {
                assert(rem2[rem.len() as int] == i);
            }
            if rem2.contains(m as usize) && m != i {
                let j: int = choose|j: int| 0 <= j < rem2.len() && rem2[j] == m as usize;
                assert(j < rem.len());
                assert(rem[j] == m as usize);
            }
        }
    }
}

/// Undoing the latest removal makes exactly that index available again.
proof fn lemma_present_drop_last(n: nat, rem: Seq<usize>, i: usize)
    requires
        rem.len() > 0,
        rem.no_duplicates(),
        i == rem.last(),
        1 <= i <= n,
        n <= usize::MAX,
    ensures
        forall|m: int|
            #![trigger present_in(n, rem.drop_last(), m)]
            present_in(n, rem.drop_last(), m) <==> (present_in(n, rem, m) || m == i),
{
    let rem2 = rem.drop_last();
    assert(rem2.len() == rem.len() - 1);
    assert(forall|j: int| 0 <= j < rem.len() - 1 ==> #[trigger] rem2[j] == rem[j]);
    assert(rem[rem.len() - 1] == i);
    assert forall|m: int|
        present_in(n, rem2, m) <==> (present_in(n, rem, m) || m == i) by {
        if 1 <= m <= n {
            if rem2.contains(m as usize) {
                let j: int = choose|j: int| 0 <= j < rem2.len() && rem2[j] == m as usize;
                assert(rem[j] == m as usize);
                assert(j != rem.len() - 1);
                if m == i {
                    assert(rem[j] == rem[rem.len() - 1]);
                    assert(false);
                }
            }
            if rem.contains(m as usize) && m != i {
                let j: int = choose|j: int| 0 <= j < rem.len() && rem[j] == m as usize;
                assert(j != rem.len() - 1);
                assert(rem2[j] == m as usize);
            }
        }
    }
}

impl AvailableList {
    /// The number of real indices the list was built over.
    pub open spec fn n(self) -> nat {
        (self.entries@.len() - 1) as nat
    }

    /// The removed indices, oldest first: the list's ghost removal stack.
    pub open spec fn rem(self) -> Seq<usize> {
        self.removed@
    }

    /// Index `k` is currently available.
    pub open spec fn present(self, k: int) -> bool {
        present_in(self.n(), self.rem(), k)
    }

    /// The list invariant: the head and every available node carry links that
    /// are right for the current state, and every removed node carries links
    /// that were right at the moment of its removal.
    pub open spec fn inv(self) -> bool {
        let n = self.n();
        let rem = self.rem();
        let e = self.entries@;
        &&& e.len() == n + 1
        &&& rem.no_duplicates()
        &&& forall|j: int| #![trigger rem[j]] 0 <= j < rem.len() ==> 1 <= rem[j] <= n
        &&& forall|k: int|
            #![trigger e[k]]
            0 <= k <= n && (k == 0 || present_in(n, rem, k)) ==> pred_link_ok(n, rem, k, e[k].prev)
                && succ_link_ok(n, rem, k, e[k].next)
        &&& forall|j: int|
            #![trigger rem[j]]
            0 <= j < rem.len() ==> pred_link_ok(n, rem.take(j), rem[j] as int, e[rem[j] as int].prev)
                && succ_link_ok(n, rem.take(j), rem[j] as int, e[rem[j] as int].next)
    }

    /// Create a new list over `num_elements` indices, all of them available.
    pub fn new(num_elements: usize) -> (r: Self)
        requires
            num_elements < usize::MAX,
        ensures
            r.inv(),
            r.n() == num_elements,
            r.rem() == Seq::<usize>::empty(),
    {
        let mut entries: Vec<Entry> = Vec::new();
        entries.push(
            Entry { prev: None, next: if num_elements == 0 { None } else { Some(1) } },
        );
        let mut i: usize = 1;
        while i <= num_elements
            invariant
                1 <= i <= num_elements + 1,
                num_elements < usize::MAX,
                entries@.len() == i,
                forall|k: int|
                    #![trigger entries@[k]]
                    0 <= k < i ==> entries@[k].prev == (if k == 0 {
                        None
                    } else {
                        Some((k - 1) as usize)
                    }) && entries@[k].next == (if k == num_elements {
                        None::<usize>
                    } else {
                        Some((k + 1) as usize)
                    }),
            decreases num_elements + 1 - i,
        {
            entries.push(
                Entry {
                    prev: Some(i - 1),
                    next: if i == num_elements { None } else { Some(i + 1) },
                },
            );
            i = i + 1;
        }
        let r = AvailableList { entries, removed: Ghost(Seq::empty()) };
        proof {
            let n = r.n();
            let rem = r.rem();
            let e = r.entries@;
            assert forall|k: int|
                0 <= k <= n && (k == 0 || present_in(n, rem, k)) implies pred_link_ok(
                n,
                rem,
                k,
                #[trigger] e[k].prev,
            ) && succ_link_ok(n, rem, k, e[k].next) by {
                if k > 0 {
                    assert(present_in(n, rem, k - 1) || k - 1 == 0);
                }
                if k < n {
                    assert(present_in(n, rem, k + 1));
                }
            }
        }
        r
    }

    /// Remove the available node `i` from the list by repointing its
    /// neighbours at each other. The node keeps its own links as a snapshot
    /// of this moment.
    pub fn remove(&mut self, i: usize)
        requires
            old(self).inv(),
            old(self).present(i as int),
        ensures
            final(self).inv(),
            final(self).n() == old(self).n(),
            final(self).rem() == old(self).rem().push(i),
            final(self).entries@[i as int] == old(self).entries@[i as int],
    {
        let ghost n = self.n();
        let ghost rem0 = self.rem();
        let ghost e0 = self.entries@;
        let prev = self.entries[i].prev;
        let next = self.entries[i].next;
        if let Some(p) = prev {
            let pe = self.entries[p];
            self.entries.set(p, Entry { prev: pe.prev, next });
        }
        if let Some(nx) = next {
            let ne = self.entries[nx];
            self.entries.set(nx, Entry { prev, next: ne.next });
        }
        proof {
            self.removed@ = self.removed@.push(i);
        }
        proof {
            let rem = self.rem();
            let e = self.entries@;
            assert(rem =~= rem0.push(i));
            assert(n <= usize::MAX) by {
                assert(self.entries.len() == self.entries@.len());
            }
            lemma_present_push(n, rem0, i);
            assert(present_in(n, rem0, i as int));
            // the removal stack stays duplicate-free and in range
            assert(rem.no_duplicates()) by {
                assert forall|a: int, b: int|
                    0 <= a < b < rem.len() implies rem[a] != rem[b] by {
                    if b == rem.len() - 1 {
                        if rem0[a] == i {
                            assert(rem0.contains(i));
                        }
                    }
                }
            }
            // snapshot states of previously removed nodes are unchanged
            assert(rem.take(rem.len() - 1) =~= rem0);
            assert forall|j: int| 0 <= j < rem.len() - 1 implies rem.take(j) =~= rem0.take(
                j,
            ) by {}
            // the repointed nodes are available or the head, so no removed
            // node's entry changed
            assert(i as int != 0 && (prev matches Some(p) ==> p != i) && (next matches Some(
                nx,
            ) ==> nx != i)) by {
                assert(pred_link_ok(n, rem0, i as int, e0[i as int].prev));
                assert(succ_link_ok(n, rem0, i as int, e0[i as int].next));
            }
            assert(e[i as int] == e0[i as int]);
            assert forall|j: int| #![trigger rem[j]] 0 <= j < rem.len() - 1 implies e[rem[j] as int]
                == e0[rem[j] as int] by {
                assert(rem0[j] == rem[j]);
                assert(rem0.contains(rem0[j]));
                match prev {
                    Some(p) => {
                        if rem[j] == p {
                            assert(p == 0 || present_in(n, rem0, p as int));
                        }
                    },
                    None => {},
                }
                match next {
                    Some(nx) => {
                        if rem[j] == nx {
                            assert(present_in(n, rem0, nx as int));
                        }
                    },
                    None => {},
                }
            }
            // the head and the still-available nodes
            assert forall|k: int|
                0 <= k <= n && (k == 0 || present_in(n, rem, k)) implies pred_link_ok(
                n,
                rem,
                k,
                #[trigger] e[k].prev,
            ) && succ_link_ok(n, rem, k, e[k].next) by {
                assert(k == 0 || present_in(n, rem0, k));
                assert(pred_link_ok(n, rem0, k, e0[k].prev));
                assert(succ_link_ok(n, rem0, k, e0[k].next));
                assert(pred_link_ok(n, rem0, i as int, e0[i as int].prev));
                assert(succ_link_ok(n, rem0, i as int, e0[i as int].next));
                if prev matches Some(p) && k == p {
                    // i's old predecessor is repointed forward past i
                    assert(e[k].prev == e0[k].prev);
                    assert(e[k].next == next);
                    assert(succ_link_ok(n, rem, k, next)) by {
                        match next {
                            Some(s) => {
                                assert(present_in(n, rem, s as int));
                                assert forall|m: int| k < m < s implies !present_in(
                                    n,
                                    rem,
                                    m,
                                ) by {
                                    if m != i {
                                        if m < i {
                                            assert(!present_in(n, rem0, m));
                                        } else {
                                            assert(!present_in(n, rem0, m));
                                        }
                                    }
                                }
                            },
                            None => {
                                assert forall|m: int| k < m <= n implies !present_in(
                                    n,
                                    rem,
                                    m,
                                ) by {
                                    if m != i {
                                        assert(!present_in(n, rem0, m));
                                    }
                                }
                            },
                        }
                    }
                    assert(pred_link_ok(n, rem, k, e[k].prev)) by {
                        match e0[k].prev {
                            Some(j) => {
                                assert forall|m: int| j < m < k implies !present_in(
                                    n,
                                    rem,
                                    m,
                                ) by {
                                    assert(!present_in(n, rem0, m));
                                }
                            },
                            None => {},
                        }
                    }
                } else if next matches Some(nx) && k == nx {
                    // i's old successor is repointed backward past i
                    assert(e[k].next == e0[k].next);
                    assert(e[k].prev == prev);
                    assert(pred_link_ok(n, rem, k, prev)) by {
                        match prev {
                            Some(j) => {
                                assert forall|m: int| j < m < k implies !present_in(
                                    n,
                                    rem,
                                    m,
                                ) by {
                                    if m != i {
                                        if m < i {
                                            assert(!present_in(n, rem0, m));
                                        } else {
                                            assert(!present_in(n, rem0, m));
                                        }
                                    }
                                }
                            },
                            None => {},
                        }
                    }
                    assert(succ_link_ok(n, rem, k, e[k].next)) by {
                        match e0[k].next {
                            Some(j) => {
                                assert forall|m: int| k < m < j implies !present_in(
                                    n,
                                    rem,
                                    m,
                                ) by {
                                    assert(!present_in(n, rem0, m));
                                }
                            },
                            None => {
                                assert forall|m: int| k < m <= n implies !present_in(
                                    n,
                                    rem,
                                    m,
                                ) by {
                                    assert(!present_in(n, rem0, m));
                                }
                            },
                        }
                    }
                } else {
                    // i cannot lie strictly inside k's gaps, since it was
                    // available; and k's links cannot name i, since only i's
                    // stored neighbours do
                    assert(e[k] == e0[k]);
                    assert(pred_link_ok(n, rem, k, e[k].prev)) by {
                        match e0[k].prev {
                            Some(j) => {
                                if j == i as int {
                                    // then k is i's successor, handled above
                                    assert(k > i as int && forall|m: int|
                                        i < m < k ==> !present_in(n, rem0, m));
                                    match e0[i as int].next {
                                        Some(s) => {
                                            assert(s as int >= k) by {
                                                if (s as int) < k {
                                                    assert(!present_in(n, rem0, s as int));
                                                }
                                            }
                                            assert(k == s as int);
                                            assert(false);
                                        },
                                        None => {
                                            assert(!present_in(n, rem0, k));
                                            assert(false);
                                        },
                                    }
                                }
                                assert forall|m: int| j < m < k implies !present_in(
                                    n,
                                    rem,
                                    m,
                                ) by {
                                    if m != i {
                                        assert(!present_in(n, rem0, m));
                                    }
                                }
                            },
                            None => {},
                        }
                    }
                    assert(succ_link_ok(n, rem, k, e[k].next)) by {
                        match e0[k].next {
                            Some(j) => {
                                if j == i as int {
                                    // then k is i's predecessor, handled above
                                    match e0[i as int].prev {
                                        Some(p2) => {
                                            assert(p2 as int >= k) by {
                                                if (p2 as int) < k {
                                                    assert(!present_in(n, rem0, k));
                                                }
                                            }
                                            assert(p2 as int == k) by {
                                                if (p2 as int) > k {
                                                    assert(!present_in(n, rem0, p2 as int));
                                                    assert(p2 == 0 || present_in(
                                                        n,
                                                        rem0,
                                                        p2 as int,
                                                    ));
                                                }
                                            }
                                            assert(false);
                                        },
                                        None => {
                                            assert(false);
                                        },
                                    }
                                }
                                assert forall|m: int| k < m < j implies !present_in(
                                    n,
                                    rem,
                                    m,
                                ) by {
                                    if m != i {
                                        assert(!present_in(n, rem0, m));
                                    }
                                }
                            },
                            None => {
                                assert forall|m: int| k < m <= n implies !present_in(
                                    n,
                                    rem,
                                    m,
                                ) by {
                                    if m != i {
                                        assert(!present_in(n, rem0, m));
                                    }
                                }
                            },
                        }
                    }
                }
            }
        }
    }

    /// Remove and return the smallest available index, if any is left.
    pub fn remove_first(&mut self) -> (r: Option<usize>)
        requires
            old(self).inv(),
        ensures
            final(self).inv(),
            final(self).n() == old(self).n(),
            old(self).rem().len() < old(self).n() ==> r.is_some(),
            r matches Some(i) ==> {
                &&& old(self).present(i as int)
                &&& forall|k: int| old(self).present(k) ==> i as int <= k
                &&& final(self).rem() == old(self).rem().push(i)
            },
            r.is_none() ==> *final(self) == *old(self) && final(self).rem() == old(self).rem(),
    {
        let head_next = self.entries[0].next;
        match head_next {
            None => {
                proof {
                    if self.rem().len() < self.n() {
                        let n = self.n();
                        let rem = self.rem();
                        assert(succ_link_ok(n, rem, 0, self.entries@[0].next));
                        assert(n <= usize::MAX) by {
                            assert(self.entries.len() == self.entries@.len());
                        }
                        assert forall|k: usize| 1 <= k <= n implies rem.contains(k) by {
                            assert(!present_in(n, rem, k as int));
                        }
                        lemma_all_of_range_means_long(n, rem);
                    }
                }
                None
            },
            Some(i) => {
                proof {
                    assert(succ_link_ok(self.n(), self.rem(), 0, self.entries@[0].next));
                }
                self.remove(i);
                Some(i)
            },
        }
    }

    /// Add the node `i` back into the list using its stored snapshot links.
    /// Sound only for the most recently removed node, whose snapshot is
    /// exactly the list's current state plus itself.
    pub fn add(&mut self, i: usize)
        requires
            old(self).inv(),
            old(self).rem().len() > 0,
            i == old(self).rem().last(),
        ensures
            final(self).inv(),
            final(self).n() == old(self).n(),
            final(self).rem() == old(self).rem().drop_last(),
            final(self).entries@[i as int] == old(self).entries@[i as int],
    {
        let ghost n = self.n();
        let ghost rem0 = self.rem();
        let ghost rem = rem0.drop_last();
        let ghost e0 = self.entries@;
        proof {
            let j0: int = rem0.len() - 1;
            assert(rem0[j0] == i);
            assert(rem0.take(j0) =~= rem);
            assert(pred_link_ok(n, rem, i as int, e0[i as int].prev));
            assert(succ_link_ok(n, rem, i as int, e0[i as int].next));
        }
        let iprev = self.entries[i].prev;
        let inext = self.entries[i].next;
        if let Some(p) = iprev {
            let pe = self.entries[p];
            self.entries.set(p, Entry { prev: pe.prev, next: Some(i) });
        }
        if let Some(nx) = inext {
            let ne = self.entries[nx];
            self.entries.set(nx, Entry { prev: Some(i), next: ne.next });
        }
        proof {
            self.removed@ = self.removed@.drop_last();
        }
        proof {
            let rem = self.rem();
            let e = self.entries@;
            assert(rem =~= rem0.drop_last());
            assert(n <= usize::MAX) by {
                assert(self.entries.len() == self.entries@.len());
            }
            assert(1 <= i <= n) by {
                assert(rem0[rem0.len() - 1] == i);
            }
            lemma_present_drop_last(n, rem0, i);
            assert(present_in(n, rem, i as int));
            // the shortened stack is still duplicate-free, in range, and its
            // snapshots are untouched
            assert(rem.no_duplicates()) by {
                assert forall|a: int, b: int|
                    0 <= a < b < rem.len() implies rem[a] != rem[b] by {
                    assert(rem0[a] == rem[a] && rem0[b] == rem[b]);
                }
            }
            assert forall|j: int| #![trigger rem[j]] 0 <= j < rem.len() implies 1 <= rem[j]
                <= n by {
                assert(rem0[j] == rem[j]);
            }
            assert forall|j: int| 0 <= j < rem.len() implies rem0.take(j) =~= rem.take(j) by {}
            // i's own links were snapshotted at exactly the state now
            // restored, and i is above its stored predecessor and below its
            // stored successor, so neither is i itself
            assert(pred_link_ok(n, rem, i as int, e0[i as int].prev));
            assert(succ_link_ok(n, rem, i as int, e0[i as int].next));
            assert(iprev matches Some(p) ==> p != i && (p == 0 || present_in(n, rem, p as int)));
            assert(inext matches Some(nx) ==> nx != i && present_in(n, rem, nx as int));
            assert(e[i as int] == e0[i as int]);
            // i has a predecessor link, the head if nothing else
            assert(iprev is Some);
            // removed nodes keep their entries: the repointed nodes are
            // available or the head
            assert forall|j: int| #![trigger rem[j]] 0 <= j < rem.len() implies e[rem[j] as int]
                == e0[rem[j] as int] by {
                assert(rem.contains(rem[j]));
                match iprev {
                    Some(p) => {
                        if rem[j] == p {
                            assert(!rem.contains(p));
                        }
                    },
                    None => {},
                }
                match inext {
                    Some(nx) => {
                        if rem[j] == nx {
                            assert(!rem.contains(nx));
                        }
                    },
                    None => {},
                }
            }
            // the head and every now-available node carry correct links
            assert forall|k: int|
                0 <= k <= n && (k == 0 || present_in(n, rem, k)) implies pred_link_ok(
                n,
                rem,
                k,
                #[trigger] e[k].prev,
            ) && succ_link_ok(n, rem, k, e[k].next) by {
                if k != i as int {
                    assert(k == 0 || present_in(n, rem0, k));
                    assert(pred_link_ok(n, rem0, k, e0[k].prev));
                    assert(succ_link_ok(n, rem0, k, e0[k].next));
                    if iprev matches Some(p) && k == p as int {
                        // i's stored predecessor is repointed forward at i
                        assert(e[k].prev == e0[k].prev);
                        assert(e[k].next == Some(i));
                        assert(succ_link_ok(n, rem, k, Some(i))) by {
                            assert forall|m: int| k < m < i implies !present_in(n, rem, m) by {
                                assert(!present_in(n, rem, m));
                            }
                        }
                        assert(pred_link_ok(n, rem, k, e[k].prev)) by {
                            match e0[k].prev {
                                Some(j) => {
                                    assert forall|m: int| j < m < k implies !present_in(
                                        n,
                                        rem,
                                        m,
                                    ) by {
                                        assert(!present_in(n, rem0, m));
                                        assert(m < i);
                                    }
                                },
                                None => {},
                            }
                        }
                    } else if inext matches Some(nx) && k == nx as int {
                        // i's stored successor is repointed backward at i
                        assert(e[k].next == e0[k].next);
                        assert(e[k].prev == Some(i));
                        assert(pred_link_ok(n, rem, k, Some(i))) by {
                            assert forall|m: int| i < m < k implies !present_in(n, rem, m) by {
                                assert(!present_in(n, rem, m));
                            }
                        }
                        assert(succ_link_ok(n, rem, k, e[k].next)) by {
                            match e0[k].next {
                                Some(j) => {
                                    assert forall|m: int| k < m < j implies !present_in(
                                        n,
                                        rem,
                                        m,
                                    ) by {
                                        assert(!present_in(n, rem0, m));
                                        assert(m > i);
                                    }
                                },
                                None => {
                                    assert forall|m: int| k < m <= n implies !present_in(
                                        n,
                                        rem,
                                        m,
                                    ) by {
                                        assert(!present_in(n, rem0, m));
                                        assert(m > i);
                                    }
                                },
                            }
                        }
                    } else {
                        // any other node: i cannot lie inside its gaps, else
                        // k would have been i's stored neighbour
                        assert(e[k] == e0[k]);
                        assert(pred_link_ok(n, rem, k, e[k].prev)) by {
                            match e0[k].prev {
                                Some(j) => {
                                    assert forall|m: int| j < m < k implies !present_in(
                                        n,
                                        rem,
                                        m,
                                    ) by {
                                        if m == i as int {
                                            // i < k would force k to be i's
                                            // stored successor
                                            match e0[i as int].next {
                                                Some(nx2) => {
                                                    assert((nx2 as int) <= k) by {
                                                        if k < nx2 as int {
                                                            assert(!present_in(n, rem, k));
                                                        }
                                                    }
                                                    assert((nx2 as int) >= k) by {
                                                        if (nx2 as int) < k {
                                                            assert(present_in(n, rem0, nx2 as int));
                                                            assert(!present_in(n, rem0, nx2 as int));
                                                        }
                                                    }
                                                    assert(false);
                                                },
                                                None => {
                                                    assert(!present_in(n, rem, k));
                                                    assert(false);
                                                },
                                            }
                                        } else {
                                            assert(!present_in(n, rem0, m));
                                        }
                                    }
                                },
                                None => {},
                            }
                        }
                        assert(succ_link_ok(n, rem, k, e[k].next)) by {
                            match e0[k].next {
                                Some(j) => {
                                    assert forall|m: int| k < m < j implies !present_in(
                                        n,
                                        rem,
                                        m,
                                    ) by {
                                        if m == i as int {
                                            // k < i would force k to be i's
                                            // stored predecessor
                                            match e0[i as int].prev {
                                                Some(p2) => {
                                                    assert((p2 as int) >= k) by {
                                                        if (p2 as int) < k {
                                                            assert(!present_in(n, rem, k));
                                                        }
                                                    }
                                                    assert((p2 as int) <= k) by {
                                                        if (p2 as int) > k {
                                                            assert(p2 != 0);
                                                            assert(present_in(n, rem0, p2 as int));
                                                            assert(!present_in(n, rem0, p2 as int));
                                                        }
                                                    }
                                                    assert(false);
                                                },
                                                None => {
                                                    assert(false);
                                                },
                                            }
                                        } else {
                                            assert(!present_in(n, rem0, m));
                                        }
                                    }
                                },
                                None => {
                                    assert forall|m: int| k < m <= n implies !present_in(
                                        n,
                                        rem,
                                        m,
                                    ) by {
                                        if m == i as int {
                                            match e0[i as int].prev {
                                                Some(p2) => {
                                                    assert((p2 as int) >= k) by {
                                                        if (p2 as int) < k {
                                                            assert(!present_in(n, rem, k));
                                                        }
                                                    }
                                                    assert((p2 as int) <= k) by {
                                                        if (p2 as int) > k {
                                                            assert(p2 != 0);
                                                            assert(present_in(n, rem0, p2 as int));
                                                            assert(!present_in(n, rem0, p2 as int));
                                                        }
                                                    }
                                                    assert(false);
                                                },
                                                None => {
                                                    assert(false);
                                                },
                                            }
                                        } else {
                                            assert(!present_in(n, rem0, m));
                                        }
                                    }
                                },
                            }
                        }
                    }
                }
            }
        }
    }

    /// Add the node `i` back and remove the next available index after it, if
    /// one exists: the combined "put back, take the next one" step of the
    /// backtracking search. Demands the most recently removed node, like
    /// `add`.
    pub fn swap_for_next(&mut self, i: usize) -> (r: Option<usize>)
        requires
            old(self).inv(),
            old(self).rem().len() > 0,
            i == old(self).rem().last(),
        ensures
            final(self).inv(),
            final(self).n() == old(self).n(),
            r matches Some(nx) ==> {
                &&& (i as int) < nx as int
                &&& present_in(old(self).n(), old(self).rem().drop_last(), nx as int)
                &&& forall|m: int|
                    i < m < nx ==> !present_in(old(self).n(), old(self).rem().drop_last(), m)
                &&& final(self).rem() == old(self).rem().drop_last().push(nx)
            },
            r.is_none() ==> {
                &&& forall|m: int|
                    i < m <= old(self).n() ==> !present_in(
                        old(self).n(),
                        old(self).rem().drop_last(),
                        m,
                    )
                &&& final(self).rem() == old(self).rem().drop_last()
            },
    {
        let ghost n = self.n();
        let ghost rem = self.rem().drop_last();
        proof {
            let j0: int = self.rem().len() - 1;
            assert(self.rem()[j0] == i);
            assert(self.rem().take(j0) =~= rem);
            assert(succ_link_ok(n, rem, i as int, self.entries@[i as int].next));
        }
        let next = self.entries[i].next;
        self.add(i);
        match next {
            None => None,
            Some(nx) => {
                self.remove(nx);
                Some(nx)
            },
        }
    }
}

/// A freshly captured output: element by element a clone of the domain
/// values the stack points at (stack entries are one-based).
pub open spec fn is_perm_capture_of<T: Clone>(elements: Seq<T>, stack: Seq<usize>, v: Seq<T>) -> bool {
    &&& v.len() == stack.len()
    &&& forall|j: int| #![trigger v[j]] 0 <= j < stack.len() ==> cloned(
        elements[stack[j] - 1],
        v[j],
    )
}

/// `[1, 2, ..., k]`: the least permutation prefix of length `k`, and the
/// stack the fill routine builds when it starts from nothing.
pub open spec fn one_based_identity(k: nat) -> Seq<usize> {
    Seq::new(k, |i: int| (i + 1) as usize)
}

/// The permutation a stack denotes: the domain elements at its one-based
/// positions, in stack order.
pub open spec fn stack_to_values<T>(elements: Seq<T>, stack: Seq<usize>) -> Seq<T> {
    Seq::new(stack.len(), |j: int| elements[stack[j] - 1])
}

/// Law: when cloning the element type is exact, a captured permutation
/// equals, value for value, the domain elements its stack selects.
pub proof fn lemma_perm_capture_exact<T: Clone>(elements: Seq<T>, stack: Seq<usize>, v: Seq<T>)
    requires
        clone_exact::<T>(),
        is_perm_capture_of(elements, stack, v),
    ensures
        v == stack_to_values(elements, stack),
{
    let w = stack_to_values(elements, stack);
    assert forall|j: int| 0 <= j < v.len() implies v[j] == w[j] by {
        assert(cloned(elements[stack[j] - 1], v[j]));
    }
    assert(v =~= w);
}

/// A sequence that could be a backtracking stack over `n` elements: distinct
/// one-based indices into the domain.
pub open spec fn valid_perm_stack(n: nat, s: Seq<usize>) -> bool {
    &&& s.no_duplicates()
    &&& forall|j: int| #![trigger s[j]] 0 <= j < s.len() ==> 1 <= s[j] <= n
}

/// `v` is the smallest index still available once everything in `prefix` is
/// taken: what the fill routine picks next.
pub open spec fn min_available_at(n: nat, prefix: Seq<usize>, v: usize) -> bool {
    &&& present_in(n, prefix, v as int)
    &&& forall|m: int| present_in(n, prefix, m) ==> v as int <= m
}

/// An iterator which generates permutations in lexicographic order over a
/// list of elements, relative to the original order of those elements. The
/// domain keeps the caller's order and duplicate values verbatim: positions,
/// not values, are the unit of identity.
pub struct Permutations<T> {
    pub elements: Vec<T>,
    pub avail_list: AvailableList,
    pub stack: Vec<usize>,
    pub perm_length: usize,
    pub all_sizes: bool,
    pub done: bool,
}

impl<T> Permutations<T> {
    /// The number of elements permutations are drawn from.
    pub open spec fn domain_len(self) -> nat {
        self.elements@.len()
    }

    /// Structural invariant: the available list is consistent, its removal
    /// stack is exactly the backtracking stack, and unless the generator is
    /// finished the stack holds a full permutation of the target length.
    pub open spec fn wf(self) -> bool {
        &&& self.avail_list.inv()
        &&& self.avail_list.n() == self.domain_len()
        &&& self.avail_list.rem() == self.stack@
        &&& self.domain_len() < usize::MAX
        &&& self.done || (self.perm_length <= self.domain_len() && self.stack@.len()
            == self.perm_length)
    }
}

impl<T: Clone> Permutations<T> {
    /// Creates a generator yielding every permutation of the whole input, in
    /// lexicographic order of positions.
    pub fn new(elements: Vec<T>) -> (r: Self)
        requires
            elements@.len() < usize::MAX,
        ensures
            r.wf(),
            r.elements == elements,
            r.all_sizes == false,
            r.perm_length == elements@.len(),
            r.done == false,
            r.stack@ == one_based_identity(elements@.len()),
    {
        let length = elements.len();
        Permutations::from_vec_with_size_constraints(elements, length, false)
    }

    /// Creates a generator yielding every permutation of the given length
    /// drawn from the input, in lexicographic order of positions.
    pub fn of_length(elements: Vec<T>, perm_length: usize) -> (r: Self)
        requires
            elements@.len() < usize::MAX,
        ensures
            r.wf(),
            r.elements == elements,
            r.all_sizes == false,
            r.perm_length == perm_length,
            r.done == (perm_length > elements@.len()),
            !r.done ==> r.stack@ == one_based_identity(perm_length as nat),
    {
        Permutations::from_vec_with_size_constraints(elements, perm_length, false)
    }

    /// Creates a generator yielding every permutation of every length drawn
    /// from the input, shorter ones first.
    pub fn all(elements: Vec<T>) -> (r: Self)
        requires
            elements@.len() < usize::MAX,
        ensures
            r.wf(),
            r.elements == elements,
            r.all_sizes == true,
            r.perm_length == 0,
            r.done == false,
    {
        Permutations::from_vec_with_size_constraints(elements, 0, true)
    }

    fn from_vec_with_size_constraints(elements: Vec<T>, perm_length: usize, all_sizes: bool) -> (r:
        Self)
        requires
            elements@.len() < usize::MAX,
        ensures
            r.wf(),
            r.elements == elements,
            r.perm_length == perm_length,
            r.all_sizes == all_sizes,
            r.done == (perm_length > elements@.len()),
            !r.done ==> r.stack@ == one_based_identity(perm_length as nat),
    {
        let avail_list = AvailableList::new(elements.len());
        let stack: Vec<usize> = Vec::new();
        let mut perms = Permutations { elements, avail_list, stack, perm_length, all_sizes, done: false };
        proof {
            assert(perms.stack@ =~= Seq::<usize>::empty());
            assert(perms.stack@ =~= one_based_identity(0));
        }
        perms.fill_remaining_perm();
        perms
    }

    /// Repeatedly removes the first available index and pushes it, until the
    /// stack holds `perm_length` entries: the lexicographically least
    /// completion of the current prefix. When the target length exceeds the
    /// domain, no permutation exists: the generator becomes terminal and the
    /// state is left untouched.
    fn fill_remaining_perm(&mut self) -> (r: bool)
        requires
            old(self).avail_list.inv(),
            old(self).avail_list.n() == old(self).domain_len(),
            old(self).avail_list.rem() == old(self).stack@,
            old(self).stack@.len() <= old(self).perm_length,
            old(self).domain_len() < usize::MAX,
        ensures
            final(self).avail_list.inv(),
            final(self).avail_list.n() == old(self).domain_len(),
            final(self).avail_list.rem() == final(self).stack@,
            final(self).elements == old(self).elements,
            final(self).all_sizes == old(self).all_sizes,
            final(self).perm_length == old(self).perm_length,
            r == (old(self).perm_length <= old(self).domain_len()),
            r ==> {
                &&& final(self).done == old(self).done
                &&& final(self).stack@.len() == old(self).perm_length
                &&& final(self).stack@.take(old(self).stack@.len() as int) == old(self).stack@
            },
            r && old(self).stack@ == one_based_identity(old(self).stack@.len() as nat)
                ==> final(self).stack@ == one_based_identity(old(self).perm_length as nat),
            r ==> forall|t: int|
                old(self).stack@.len() <= t < old(self).perm_length ==> min_available_at(
                    old(self).domain_len(),
                    final(self).stack@.take(t),
                    #[trigger] final(self).stack@[t],
                ),
            !r ==> final(self).done == true && final(self).stack@ == old(self).stack@,
    {
        if self.perm_length > self.elements.len() {
            self.done = true;
            return false;
        }
        proof {
            assert(self.stack@.take(self.stack@.len() as int) =~= self.stack@);
        }
        while self.stack.len() < self.perm_length
            invariant
                self.avail_list.inv(),
                self.avail_list.n() == old(self).domain_len(),
                self.avail_list.rem() == self.stack@,
                self.elements == old(self).elements,
                self.all_sizes == old(self).all_sizes,
                self.perm_length == old(self).perm_length,
                self.done == old(self).done,
                self.stack@.len() <= self.perm_length,
                self.perm_length <= self.domain_len(),
                old(self).stack@.len() <= self.stack@.len(),
                self.stack@.take(old(self).stack@.len() as int) == old(self).stack@,
                old(self).stack@ == one_based_identity(old(self).stack@.len() as nat)
                    ==> self.stack@ == one_based_identity(self.stack@.len() as nat),
                forall|t: int|
                    old(self).stack@.len() <= t < self.stack@.len() ==> min_available_at(
                        old(self).domain_len(),
                        self.stack@.take(t),
                        #[trigger] self.stack@[t],
                    ),
            decreases self.perm_length - self.stack@.len(),
        {
            let ghost before: Seq<usize> = self.stack@;
            let ghost pre_avail: AvailableList = self.avail_list;
            let idx = self.avail_list.remove_first();
            let i = idx.unwrap();
            self.stack.push(i);
            proof {
                assert(self.stack@.take(old(self).stack@.len() as int) =~= old(self).stack@);
                assert forall|t: int| 0 <= t <= before.len() implies self.stack@.take(t)
                    == before.take(t) by {
                    assert(self.stack@.take(t) =~= before.take(t));
                }
                assert(forall|t: int|
                    0 <= t < before.len() ==> #[trigger] self.stack@[t] == before[t]);
                assert(self.stack@[before.len() as int] == i);
                assert forall|m: int|
                    present_in(old(self).domain_len(), before, m) implies i as int <= m by {
                    assert(pre_avail.present(m));
                }
                assert(min_available_at(old(self).domain_len(), before, i));
                assert(before.take(before.len() as int) =~= before);
                assert forall|t: int|
                    old(self).stack@.len() <= t < self.stack@.len() implies min_available_at(
                    old(self).domain_len(),
                    self.stack@.take(t),
                    #[trigger] self.stack@[t],
                ) by {
                    if t < before.len() {
                        assert(min_available_at(
                            old(self).domain_len(),
                            before.take(t),
                            before[t],
                        ));
                        assert(self.stack@.take(t) == before.take(t));
                        assert(self.stack@[t] == before[t]);
                    } else {
                        assert(t == before.len());
                        assert(self.stack@.take(t) == before);
                    }
                }
                if old(self).stack@ == one_based_identity(old(self).stack@.len() as nat) {
                    let len: int = before.len() as int;
                    assert(pre_avail.present(len + 1)) by {
                        if before.contains((len + 1) as usize) {
                            let j: int = choose|j: int|
                                0 <= j < before.len() && before[j] == (len + 1) as usize;
                            assert(before[j] == j + 1);
                        }
                    }
                    assert(i as int <= len + 1);
                    assert(!before.contains(i));
                    assert(i as int >= len + 1) by {
                        if (i as int) <= len {
                            assert(before[i - 1] == i);
                        }
                    }
                    assert(self.stack@ =~= one_based_identity(self.stack@.len() as nat));
                }
            }
        }
        true
    }

    /// Stages the lexicographically next permutation: pops explored suffix
    /// entries, swaps the deepest poppable one for the next larger available
    /// index, and refills the rest with the least completion. In all-sizes
    /// mode an exhausted length rolls over to the least permutation one
    /// longer; otherwise exhaustion makes the generator terminal.
    fn backtrack_advance(&mut self)
        requires
            old(self).wf(),
            !old(self).done,
        ensures
            final(self).wf(),
            final(self).elements == old(self).elements,
            final(self).all_sizes == old(self).all_sizes,
            !final(self).done ==> {
                &&& final(self).stack@.len() >= old(self).stack@.len()
                &&& (final(self).stack@.len() == old(self).stack@.len() ==> lex_less(
                    old(self).stack@,
                    final(self).stack@,
                ) && final(self).perm_length == old(self).perm_length)
                &&& (final(self).stack@.len() > old(self).stack@.len() ==> old(self).all_sizes
                    && final(self).perm_length == old(self).perm_length + 1
                    && final(self).stack@.len() == final(self).perm_length)
            },
            !final(self).done && final(self).stack@.len() == old(self).stack@.len()
                ==> forall|q: Seq<usize>|
                    #![trigger valid_perm_stack(old(self).domain_len(), q)]
                    valid_perm_stack(old(self).domain_len(), q) && q.len() == old(
                        self,
                    ).stack@.len() && lex_less(old(self).stack@, q) ==> !lex_less(
                        q,
                        final(self).stack@,
                    ),
            !final(self).done && final(self).stack@.len() > old(self).stack@.len()
                ==> final(self).stack@ == one_based_identity(final(self).perm_length as nat),
            !final(self).done && final(self).stack@.len() == old(self).stack@.len()
                ==> exists|d: int, nx: usize|
                    perm_step_witness(
                        old(self).stack@,
                        final(self).stack@,
                        old(self).domain_len(),
                        d,
                        nx,
                    ),
            final(self).done || final(self).stack@.len() > old(self).stack@.len()
                ==> forall|i: int, w: int|
                    #![trigger present_in(old(self).domain_len(), old(self).stack@.take(i), w)]
                    0 <= i < old(self).stack@.len() && old(self).stack@[i] < w <= old(
                        self,
                    ).domain_len() ==> !present_in(
                        old(self).domain_len(),
                        old(self).stack@.take(i),
                        w,
                    ),
            !old(self).all_sizes ==> final(self).perm_length == old(self).perm_length,
    {
        proof {
            assert(self.stack@.take(self.stack@.len() as int) =~= self.stack@);
            assert forall|q: Seq<usize>|
                valid_perm_stack(old(self).domain_len(), q) && q.len() == old(self).stack@.len()
                    && lex_less(old(self).stack@, q) implies q.take(self.stack@.len() as int)
                != old(self).stack@.take(self.stack@.len() as int) by {
                if q.take(self.stack@.len() as int) == old(self).stack@.take(
                    self.stack@.len() as int,
                ) {
                    assert(q.take(q.len() as int) =~= q);
                    assert(q == old(self).stack@);
                    lemma_lex_less_irrefl(q);
                }
            }
        }
        loop
            invariant
                self.avail_list.inv(),
                self.avail_list.n() == old(self).domain_len(),
                self.avail_list.rem() == self.stack@,
                self.elements == old(self).elements,
                self.all_sizes == old(self).all_sizes,
                self.perm_length == old(self).perm_length,
                self.done == false,
                self.domain_len() < usize::MAX,
                self.stack@.len() <= old(self).stack@.len(),
                self.stack@ == old(self).stack@.take(self.stack@.len() as int),
                old(self).stack@.len() == old(self).perm_length,
                old(self).perm_length <= old(self).domain_len(),
                forall|q: Seq<usize>|
                    #![trigger valid_perm_stack(old(self).domain_len(), q)]
                    valid_perm_stack(old(self).domain_len(), q) && q.len() == old(
                        self,
                    ).stack@.len() && lex_less(old(self).stack@, q) ==> q.take(
                        self.stack@.len() as int,
                    ) != old(self).stack@.take(self.stack@.len() as int),
                forall|i: int, w: int|
                    #![trigger present_in(old(self).domain_len(), old(self).stack@.take(i), w)]
                    self.stack@.len() <= i < old(self).stack@.len() && old(self).stack@[i] < w
                        <= old(self).domain_len() ==> !present_in(
                        old(self).domain_len(),
                        old(self).stack@.take(i),
                        w,
                    ),
            decreases self.stack@.len(),
        {
            if self.stack.len() == 0 {
                if !self.all_sizes {
                    self.done = true;
                    return;
                }
                self.perm_length = self.perm_length + 1;
                proof {
                    assert(self.stack@ =~= one_based_identity(0));
                }
                self.fill_remaining_perm();
                return;
            }
            let ghost pre_pop: Seq<usize> = self.stack@;
            let curr_last = self.stack.pop().unwrap();
            let ghost d: int = self.stack@.len() as int;
            let ghost nn: nat = old(self).domain_len();
            let ghost olds: Seq<usize> = old(self).stack@;
            let ghost pre_rem: Seq<usize> = self.avail_list.rem();
            proof {
                assert(pre_rem =~= self.stack@.push(curr_last));
                assert(self.stack@ =~= olds.take(d));
                assert(pre_rem.drop_last() =~= olds.take(d));
                assert(pre_pop[d] == curr_last);
                assert(olds[d] == curr_last);
            }
            match self.avail_list.swap_for_next(curr_last) {
                None => {
                    proof {
                        assert(self.avail_list.rem() =~= self.stack@);
                        assert(self.stack@ =~= olds.take(d));
                        // record that nothing is left above the popped entry
                        assert forall|i: int, w: int|
                            #![trigger present_in(nn, olds.take(i), w)]
                            d <= i < olds.len() && olds[i] < w <= nn implies !present_in(
                            nn,
                            olds.take(i),
                            w,
                        ) by {
                            if i == d {
                                assert(!present_in(nn, pre_rem.drop_last(), w));
                            }
                        }
                        // no available index above the popped one: everything
                        // beyond the first `d` positions of a larger valid
                        // stack is already ruled out
                        assert forall|q: Seq<usize>|
                            valid_perm_stack(nn, q) && q.len() == olds.len() && lex_less(
                            olds,
                            q,
                        ) implies q.take(d) != olds.take(d) by {
                            assert(q.take(d + 1) != olds.take(d + 1));
                            if q.take(d) == olds.take(d) {
                                lemma_lex_less_has_diff(olds, q);
                                let i0: int = choose|i0: int|
                                    0 <= i0 < olds.len() && olds[i0] < q[i0] && (forall|j: int|
                                        0 <= j < i0 ==> olds[j] == q[j]);
                                if i0 < d {
                                    assert(q.take(d)[i0] == olds.take(d)[i0]);
                                    assert(false);
                                }
                                if i0 > d {
                                    assert(q.take(d + 1) =~= olds.take(d + 1)) by {
                                        assert forall|j: int|
                                            #![trigger q.take(d + 1)[j]]
                                            0 <= j < d + 1 implies q.take(d + 1)[j] == olds.take(
                                            d + 1,
                                        )[j] by {
                                            assert(olds[j] == q[j]);
                                        }
                                    }
                                    assert(false);
                                }
                                assert(q[d] > curr_last);
                                assert(present_in(nn, olds.take(d), q[d] as int)) by {
                                    assert(1 <= q[d] <= nn);
                                    if olds.take(d).contains(q[d]) {
                                        let j: int = choose|j: int|
                                            0 <= j < d && olds.take(d)[j] == q[d];
                                        assert(q.take(d)[j] == q[d]);
                                        assert(q[j] == q[d]);
                                        assert(false);
                                    }
                                }
                                assert(!present_in(nn, olds.take(d), q[d] as int));
                                assert(false);
                            }
                        }
                    }
                },
                Some(nx) => {
                    self.stack.push(nx);
                    proof {
                        assert(self.avail_list.rem() =~= self.stack@);
                        assert(self.stack@.take(d) =~= olds.take(d));
                    }
                    let filled = self.fill_remaining_perm();
                    if filled {
                        proof {
                            let news: Seq<usize> = self.stack@;
                            assert forall|j: int| 0 <= j < d implies olds[j] == news[j] by {
                                assert(news.take(d + 1)[j] == news[j]);
                            }
                            assert(news.take(d + 1)[d] == nx);
                            assert(news[d] == nx);
                            lemma_lex_less_from_diff(olds, news, d);
                            // the staged stack is the immediate successor:
                            // any larger valid stack is at least as large
                            assert forall|q: Seq<usize>|
                                valid_perm_stack(nn, q) && q.len() == olds.len() && lex_less(
                                olds,
                                q,
                            ) implies !lex_less(q, news) by {
                                assert(q.take(d + 1) != olds.take(d + 1));
                                lemma_lex_less_has_diff(olds, q);
                                let i0: int = choose|i0: int|
                                    0 <= i0 < olds.len() && olds[i0] < q[i0] && (forall|j: int|
                                        0 <= j < i0 ==> olds[j] == q[j]);
                                if i0 > d {
                                    assert(q.take(d + 1) =~= olds.take(d + 1)) by {
                                        assert forall|j: int|
                                            #![trigger q.take(d + 1)[j]]
                                            0 <= j < d + 1 implies q.take(d + 1)[j] == olds.take(
                                            d + 1,
                                        )[j] by {
                                            assert(olds[j] == q[j]);
                                        }
                                    }
                                    assert(false);
                                }
                                if i0 < d {
                                    assert forall|j: int| 0 <= j < i0 implies news[j] == q[j] by {
                                        assert(olds[j] == q[j]);
                                    }
                                    assert(news[i0] == olds[i0]);
                                    lemma_lex_less_from_diff(news, q, i0);
                                    if lex_less(q, news) {
                                        lemma_lex_less_trans(news, q, news);
                                        lemma_lex_less_irrefl(news);
                                    }
                                } else {
                                    assert(q[d] > curr_last);
                                    assert(present_in(nn, olds.take(d), q[d] as int)) by {
                                        assert(1 <= q[d] <= nn);
                                        if olds.take(d).contains(q[d]) {
                                            let j: int = choose|j: int|
                                                0 <= j < d && olds.take(d)[j] == q[d];
                                            assert(olds[j] == q[j]);
                                            assert(q[j] == q[d]);
                                            assert(false);
                                        }
                                    }
                                    assert(q[d] as int >= nx as int) by {
                                        if (q[d] as int) < nx as int {
                                            assert(!present_in(nn, olds.take(d), q[d] as int));
                                        }
                                    }
                                    if q[d] > nx {
                                        assert forall|j: int|
                                            0 <= j < d implies news[j] == q[j] by {
                                            assert(olds[j] == q[j]);
                                        }
                                        lemma_lex_less_from_diff(news, q, d);
                                        if lex_less(q, news) {
                                            lemma_lex_less_trans(news, q, news);
                                            lemma_lex_less_irrefl(news);
                                        }
                                    } else {
                                        assert(q[d] == nx);
                                        assert(news.take(d + 1) =~= q.take(d + 1)) by {
                                            assert forall|j: int|
                                                #![trigger news.take(d + 1)[j]]
                                                0 <= j < d + 1 implies news.take(d + 1)[j]
                                                == q.take(d + 1)[j] by {
                                                if j < d {
                                                    assert(olds[j] == q[j]);
                                                    assert(olds[j] == news[j]);
                                                } else {
                                                    assert(news[d] == nx);
                                                }
                                            }
                                        }
                                        lemma_greedy_fill_least(nn, news, q, d + 1);
                                    }
                                }
                            }
                            assert(present_in(nn, pre_rem.drop_last(), nx as int));
                            assert forall|m: int| olds[d] < m < nx implies !present_in(
                                nn,
                                olds.take(d),
                                m,
                            ) by {
                                assert(!present_in(nn, pre_rem.drop_last(), m));
                            }
                            assert(perm_step_witness(olds, self.stack@, nn, d, nx));
                        }
                        return;
                    }
                    // unreachable given the invariant: the target length never
                    // exceeds the domain here, so the refill cannot fail; undo
                    // defensively all the same
                    proof {
                        assert(false);
                    }
                    let undone = self.stack.pop().unwrap();
                    self.avail_list.add(undone);
                },
            }
        }
    }

    /// Returns the current permutation and stages the next one. Once
    /// exhausted, every further call returns nothing.
    pub fn next(&mut self) -> (r: Option<Vec<T>>)
        requires
            old(self).wf(),
        ensures
            final(self).wf(),
            final(self).elements == old(self).elements,
            final(self).all_sizes == old(self).all_sizes,
            r.is_some() <==> !old(self).done,
            r matches Some(v) ==> is_perm_capture_of(old(self).elements@, old(self).stack@, v@),
            old(self).done ==> *final(self) == *old(self),
            !old(self).done && !final(self).done ==> {
                &&& final(self).stack@.len() >= old(self).stack@.len()
                &&& (final(self).stack@.len() == old(self).stack@.len() ==> lex_less(
                    old(self).stack@,
                    final(self).stack@,
                ))
                &&& (final(self).stack@.len() > old(self).stack@.len() ==> old(self).all_sizes
                    && final(self).stack@ == one_based_identity(final(self).perm_length as nat))
            },
            !old(self).done && !final(self).done && final(self).stack@.len() == old(
                self,
            ).stack@.len() ==> forall|q: Seq<usize>|
                #![trigger valid_perm_stack(old(self).domain_len(), q)]
                valid_perm_stack(old(self).domain_len(), q) && q.len() == old(self).stack@.len()
                    && lex_less(old(self).stack@, q) ==> !lex_less(q, final(self).stack@),
            !old(self).done && !final(self).done && final(self).stack@.len() == old(
                self,
            ).stack@.len() ==> exists|d: int, nx: usize|
                perm_step_witness(
                    old(self).stack@,
                    final(self).stack@,
                    old(self).domain_len(),
                    d,
                    nx,
                ),
            !old(self).done && (final(self).done || final(self).stack@.len() > old(
                self,
            ).stack@.len()) ==> forall|i: int, w: int|
                #![trigger present_in(old(self).domain_len(), old(self).stack@.take(i), w)]
                0 <= i < old(self).stack@.len() && old(self).stack@[i] < w <= old(
                    self,
                ).domain_len() ==> !present_in(
                    old(self).domain_len(),
                    old(self).stack@.take(i),
                    w,
                ),
            !old(self).all_sizes ==> final(self).perm_length == old(self).perm_length,
    {
        if self.done {
            return None;
        }
        let mut perm: Vec<T> = Vec::new();
        let mut i: usize = 0;
        while i < self.stack.len()
            invariant
                self.wf(),
                i <= self.stack@.len(),
                perm@.len() == i,
                forall|j: int| #![trigger perm@[j]] 0 <= j < i ==> cloned(
                    self.elements@[self.stack@[j] - 1],
                    perm@[j],
                ),
            decreases self.stack@.len() - i,
        {
            let s = self.stack[i];
            proof {
                assert(self.avail_list.rem()[i as int] == s);
            }
            perm.push(self.elements[s - 1].clone());
            i = i + 1;
        }
        self.backtrack_advance();
        Some(perm)
    }
}

/// Law: a stack whose entries are each the smallest index still available is
/// the lexicographically least valid stack with its prefix — the fill
/// routine's greedy choice yields the least completion.
pub proof fn lemma_greedy_fill_least(n: nat, s: Seq<usize>, g: Seq<usize>, base: int)
    requires
        0 <= base <= s.len(),
        s.len() == g.len(),
        s.take(base) == g.take(base),
        forall|t: int| base <= t < s.len() ==> min_available_at(n, s.take(t), #[trigger] s[t]),
        valid_perm_stack(n, g),
    ensures
        !lex_less(g, s),
{
    if lex_less(g, s) {
        lemma_lex_less_has_diff(g, s);
        let i0: int = choose|i0: int|
            0 <= i0 < g.len() && g[i0] < s[i0] && (forall|j: int| 0 <= j < i0 ==> g[j] == s[j]);
        if i0 < base {
            assert(g.take(base)[i0] == g[i0]);
            assert(s.take(base)[i0] == s[i0]);
            assert(false);
        }
        assert(min_available_at(n, s.take(i0), s[i0]));
        assert(s.take(i0) =~= g.take(i0)) by {
            assert forall|j: int| 0 <= j < i0 implies s.take(i0)[j] == g.take(i0)[j] by {
                assert(g[j] == s[j]);
            }
        }
        assert(present_in(n, s.take(i0), g[i0] as int)) by {
            assert(1 <= g[i0] <= n);
            if g.take(i0).contains(g[i0]) {
                let j: int = choose|j: int| 0 <= j < i0 && g.take(i0)[j] == g[i0];
                assert(g[j] == g[i0]);
            }
        }
        assert(s[i0] as int <= g[i0] as int);
        assert(false);
    }
}

/// Law: `[1, 2, ..., k]` is the lexicographically least valid stack of its
/// length, so each permutation length starts at its minimum.
pub proof fn lemma_one_based_identity_least(n: nat, g: Seq<usize>)
    requires
        n <= usize::MAX,
        valid_perm_stack(n, g),
        g.len() <= n,
    ensures
        !lex_less(g, one_based_identity(g.len())),
{
    let s = one_based_identity(g.len());
    lemma_identity_greedy(n, g.len());
    assert(s.take(0) =~= g.take(0));
    lemma_greedy_fill_least(n, s, g, 0);
}

/// The falling factorial `m * (m - 1) * ... * (m - k + 1)`: the number of
/// ways to arrange `k` out of `m` distinct positions in order.
pub open spec fn falling_count(m: nat, k: nat) -> nat
    decreases k,
{
    if k == 0 {
        1
    } else if m == 0 {
        0
    } else {
        m * falling_count((m - 1) as nat, (k - 1) as nat)
    }
}

/// The number of indices in `(lo, hi]` still available once everything in
/// `prefix` is taken.
pub open spec fn free_in(n: nat, prefix: Seq<usize>, lo: int, hi: int) -> nat
    decreases hi - lo,
{
    if hi <= lo {
        0
    } else {
        free_in(n, prefix, lo, hi - 1) + if present_in(n, prefix, hi) {
            1nat
        } else {
            0nat
        }
    }
}

/// The number of valid stacks of `p`'s length that agree with `p` strictly
/// before some position `i >= at` and exceed it there, plus one for the
/// stacks that agree with `p` everywhere from `at` on. A larger entry at
/// position `i` can be any still-available index above `p[i]`, followed by
/// any arrangement of `|p| - i - 1` of the remaining `n - i - 1` indices.
pub open spec fn count_from_perm_at(p: Seq<usize>, n: nat, at: int) -> nat
    decreases p.len() - at,
{
    if at < 0 || at >= p.len() {
        1
    } else {
        free_in(n, p.take(at), p[at] as int, n as int) * falling_count(
            (n - at - 1) as nat,
            (p.len() - at - 1) as nat,
        ) + count_from_perm_at(p, n, at + 1)
    }
}

/// The number of valid stacks of `p`'s length lexicographically at or above
/// `p`.
pub open spec fn count_from_perm(p: Seq<usize>, n: nat) -> nat {
    count_from_perm_at(p, n, 0)
}

/// A range holding no available index contributes nothing.
proof fn lemma_free_in_zero(n: nat, prefix: Seq<usize>, lo: int, hi: int)
    requires
        forall|w: int| lo < w <= hi ==> !present_in(n, prefix, w),
    ensures
        free_in(n, prefix, lo, hi) == 0,
    decreases hi - lo,
{
    if hi > lo {
        lemma_free_in_zero(n, prefix, lo, hi - 1);
    }
}

/// A range of available indices counts its whole width.
proof fn lemma_free_in_full(n: nat, prefix: Seq<usize>, lo: int, hi: int)
    requires
        lo >= 0,
        hi <= n,
        forall|w: int| lo < w <= hi ==> present_in(n, prefix, w),
    ensures
        free_in(n, prefix, lo, hi) == if hi >= lo {
            (hi - lo) as nat
        } else {
            0
        },
    decreases hi - lo,
{
    if hi > lo {
        lemma_free_in_full(n, prefix, lo, hi - 1);
    }
}

/// Splitting a range splits its count.
proof fn lemma_free_in_split(n: nat, prefix: Seq<usize>, lo: int, mid: int, hi: int)
    requires
        lo <= mid <= hi,
    ensures
        free_in(n, prefix, lo, hi) == free_in(n, prefix, lo, mid) + free_in(n, prefix, mid, hi),
    decreases hi - mid,
{
    if hi > mid {
        lemma_free_in_split(n, prefix, lo, mid, hi - 1);
    }
}

/// Counting availability only consults the prefix through membership, so
/// prefixes holding the same indices count alike.
proof fn lemma_free_in_same_prefix(n: nat, a: Seq<usize>, b: Seq<usize>, lo: int, hi: int)
    requires
        forall|w: usize| a.contains(w) <==> b.contains(w),
    ensures
        free_in(n, a, lo, hi) == free_in(n, b, lo, hi),
    decreases hi - lo,
{
    if hi > lo {
        lemma_free_in_same_prefix(n, a, b, lo, hi - 1);
    }
}

/// Taking one more index removes exactly that index from any range's count.
proof fn lemma_free_in_push(n: nat, s: Seq<usize>, x: usize, lo: int, hi: int)
    requires
        n <= usize::MAX,
        !s.contains(x),
        1 <= x <= n,
    ensures
        free_in(n, s, lo, hi) == free_in(n, s.push(x), lo, hi) + if lo < x <= hi {
            1nat
        } else {
            0nat
        },
    decreases hi - lo,
{
    lemma_present_push(n, s, x);
    if hi > lo {
        lemma_free_in_push(n, s, x, lo, hi - 1);
        assert(present_in(n, s.push(x), hi) <==> (present_in(n, s, hi) && hi != x));
        if hi == x {
            assert(present_in(n, s, hi));
        }
    }
}

/// A stack of `j` distinct taken indices leaves `n - j` available.
proof fn lemma_free_in_total(n: nat, s: Seq<usize>)
    requires
        n <= usize::MAX,
        valid_perm_stack(n, s),
        s.len() <= n,
    ensures
        free_in(n, s, 0, n as int) == n - s.len(),
    decreases s.len(),
{
    if s.len() == 0 {
        assert forall|w: int| 0 < w <= n implies present_in(n, s, w) by {
            if s.contains(w as usize) {
                let j: int = choose|j: int| 0 <= j < s.len() && s[j] == w as usize;
            }
        }
        lemma_free_in_full(n, s, 0, n as int);
    } else {
        let s0 = s.drop_last();
        let x = s.last();
        assert(valid_perm_stack(n, s0)) by {
            assert forall|j: int| #![trigger s0[j]] 0 <= j < s0.len() implies 1 <= s0[j]
                <= n by {
                assert(s0[j] == s[j]);
            }
            assert forall|a: int, b: int| 0 <= a < b < s0.len() implies s0[a] != s0[b] by {
                assert(s0[a] == s[a] && s0[b] == s[b]);
            }
        }
        assert(!s0.contains(x)) by {
            if s0.contains(x) {
                let j: int = choose|j: int| 0 <= j < s0.len() && s0[j] == x;
                assert(s[j] == s[s.len() - 1]);
            }
        }
        assert(1 <= x <= n) by {
            assert(s[s.len() - 1] == x);
        }
        lemma_free_in_total(n, s0);
        lemma_free_in_push(n, s0, x, 0, n as int);
        assert(s0.push(x) =~= s);
    }
}

/// A stack whose suffix from `at` on always takes the least available index
/// sits at or below exactly `(n - at) * (n - at - 1) * ...` continuations:
/// the suffix can be replaced by any arrangement of the remaining indices.
proof fn lemma_count_tail_min(p: Seq<usize>, n: nat, at: int)
    requires
        n <= usize::MAX,
        valid_perm_stack(n, p),
        p.len() <= n,
        0 <= at <= p.len(),
        forall|t: int| at <= t < p.len() ==> min_available_at(n, p.take(t), #[trigger] p[t]),
    ensures
        count_from_perm_at(p, n, at) == falling_count((n - at) as nat, (p.len() - at) as nat),
    decreases p.len() - at,
{
    if at < p.len() {
        lemma_count_tail_min(p, n, at + 1);
        let pre = p.take(at);
        assert(min_available_at(n, pre, p[at]));
        assert(valid_perm_stack(n, pre)) by {
            assert forall|j: int| #![trigger pre[j]] 0 <= j < pre.len() implies 1 <= pre[j]
                <= n by {
                assert(pre[j] == p[j]);
            }
            assert forall|a: int, b: int| 0 <= a < b < pre.len() implies pre[a] != pre[b] by {
                assert(pre[a] == p[a] && pre[b] == p[b]);
            }
        }
        lemma_free_in_total(n, pre);
        lemma_free_in_split(n, pre, 0, p[at] as int, n as int);
        assert(free_in(n, pre, 0, p[at] as int) == 1) by {
            lemma_free_in_zero(n, pre, 0, p[at] - 1);
            assert(present_in(n, pre, p[at] as int));
        }
        assert(free_in(n, pre, p[at] as int, n as int) == n - at - 1);
        let fc = falling_count((n - at - 1) as nat, (p.len() - at - 1) as nat);
        assert((n - at - 1) * fc + fc == (n - at) * fc) by (nonlinear_arith);
        assert(falling_count((n - at) as nat, (p.len() - at) as nat) == (n - at) * fc);
    }
}

/// The least stack takes the least available index at every position.
proof fn lemma_identity_greedy(n: nat, k: nat)
    requires
        k <= n,
        n <= usize::MAX,
    ensures
        forall|t: int|
            0 <= t < k ==> min_available_at(
                n,
                one_based_identity(k).take(t),
                #[trigger] one_based_identity(k)[t],
            ),
{
    let s = one_based_identity(k);
    assert forall|t: int| 0 <= t < k implies min_available_at(n, s.take(t), #[trigger] s[t]) by {
        assert(s[t] == t + 1);
        assert(present_in(n, s.take(t), t + 1)) by {
            if s.take(t).contains((t + 1) as usize) {
                let j: int = choose|j: int| 0 <= j < t && s.take(t)[j] == (t + 1) as usize;
                assert(s[j] == j + 1);
            }
        }
        assert forall|m: int| present_in(n, s.take(t), m) implies t + 1 <= m by {
            if m <= t {
                assert(s.take(t)[m - 1] == s[m - 1]);
                assert(s[m - 1] == m);
            }
        }
    }
}

/// Law: the least stack of each length, `[1, 2, ..., k]`, sits at or below
/// exactly `n * (n - 1) * ... * (n - k + 1)` valid stacks: all of them.
/// Together with `lemma_count_from_perm_step` and
/// `lemma_count_from_perm_last`, the permutations engine emits exactly
/// `n! / (n - k)!` permutations of a satisfiable length `k`.
pub proof fn lemma_count_from_perm_first(k: nat, n: nat)
    requires
        k <= n,
        n <= usize::MAX,
    ensures
        count_from_perm(one_based_identity(k), n) == falling_count(n, k),
{
    let s = one_based_identity(k);
    lemma_identity_greedy(n, k);
    assert(valid_perm_stack(n, s)) by {
        assert forall|j: int| #![trigger s[j]] 0 <= j < s.len() implies 1 <= s[j] <= n by {
            assert(s[j] == j + 1);
        }
        assert forall|a: int, b: int| 0 <= a < b < s.len() implies s[a] != s[b] by {
            assert(s[a] == a + 1 && s[b] == b + 1);
        }
    }
    lemma_count_tail_min(s, n, 0);
}

/// Law: a stack with no available index above any of its positions is the
/// last one: the only stack at or above it is itself.
pub proof fn lemma_count_from_perm_last(p: Seq<usize>, n: nat)
    requires
        forall|i: int, w: int|
            #![trigger present_in(n, p.take(i), w)]
            0 <= i < p.len() && p[i] < w <= n ==> !present_in(n, p.take(i), w),
    ensures
        count_from_perm(p, n) == 1,
{
    lemma_count_from_perm_last_at(p, n, 0);
}

proof fn lemma_count_from_perm_last_at(p: Seq<usize>, n: nat, at: int)
    requires
        0 <= at <= p.len(),
        forall|i: int, w: int|
            #![trigger present_in(n, p.take(i), w)]
            at <= i < p.len() && p[i] < w <= n ==> !present_in(n, p.take(i), w),
    ensures
        count_from_perm_at(p, n, at) == 1,
    decreases p.len() - at,
{
    if at < p.len() {
        lemma_count_from_perm_last_at(p, n, at + 1);
        lemma_free_in_zero(n, p.take(at), p[at] as int, n as int);
    }
}

/// A shared, identical prefix contributes the same amount to both counts:
/// a difference of one behind position `d` is a difference of one overall.
proof fn lemma_count_at_prefix_diff(a: Seq<usize>, b: Seq<usize>, n: nat, at: int, d: int)
    requires
        0 <= at <= d <= a.len(),
        a.len() == b.len(),
        forall|j: int| 0 <= j < d ==> a[j] == b[j],
        count_from_perm_at(a, n, d) == count_from_perm_at(b, n, d) + 1,
    ensures
        count_from_perm_at(a, n, at) == count_from_perm_at(b, n, at) + 1,
    decreases d - at,
{
    if at < d {
        lemma_count_at_prefix_diff(a, b, n, at + 1, d);
        assert(a.take(at) =~= b.take(at));
        assert(a[at] == b[at]);
    }
}

/// How one same-length advance of the permutations engine relates the old
/// stack to the new one: a shared prefix before `d`; deeper old positions
/// with nothing left above them; at `d` the least available index `nx` above
/// the old entry; and the greedy least completion after it.
pub open spec fn perm_step_witness(
    olds: Seq<usize>,
    news: Seq<usize>,
    n: nat,
    d: int,
    nx: usize,
) -> bool {
    &&& 0 <= d < olds.len()
    &&& olds.len() == news.len()
    &&& (forall|j: int| 0 <= j < d ==> olds[j] == news[j])
    &&& news[d] == nx
    &&& (olds[d] as int) < nx as int
    &&& present_in(n, olds.take(d), nx as int)
    &&& (forall|m: int| olds[d] < m < nx ==> !present_in(n, olds.take(d), m))
    &&& (forall|i: int, w: int|
        #![trigger present_in(n, olds.take(i), w)]
        d < i < olds.len() && olds[i] < w <= n ==> !present_in(n, olds.take(i), w))
    &&& (forall|t: int|
        d < t < news.len() ==> min_available_at(n, news.take(t), #[trigger] news[t]))
}

/// Law: the staged successor of the permutations engine lowers the
/// `count_from_perm` potential by exactly one — the backtracking step skips
/// nothing. `olds` and `news` are the stacks around one same-length advance:
/// they share the prefix before `d`, the popped deeper positions of `olds`
/// had nothing left above them, `nx` is the least available index above the
/// replaced entry, and the new suffix is the greedy least completion.
pub proof fn lemma_count_from_perm_step(
    olds: Seq<usize>,
    news: Seq<usize>,
    n: nat,
    d: int,
    nx: usize,
)
    requires
        n <= usize::MAX,
        valid_perm_stack(n, news),
        news.len() <= n,
        perm_step_witness(olds, news, n, d, nx),
    ensures
        count_from_perm(news, n) + 1 == count_from_perm(olds, n),
{
    let k = olds.len();
    let pre = olds.take(d);
    let fc = falling_count((n - d - 1) as nat, (k - d - 1) as nat);
    // the exhausted old suffix admits nothing beyond itself
    lemma_count_from_perm_last_at(olds, n, d + 1);
    // the greedy new suffix admits every arrangement of what is left
    lemma_count_tail_min(news, n, d + 1);
    // the head terms at `d` differ by exactly `fc`
    assert(news.take(d) =~= pre);
    lemma_free_in_split(n, pre, olds[d] as int, nx as int, n as int);
    assert(free_in(n, pre, olds[d] as int, nx as int) == 1) by {
        lemma_free_in_zero(n, pre, olds[d] as int, nx - 1);
    }
    let h_new = free_in(n, pre, nx as int, n as int);
    assert(free_in(n, pre, olds[d] as int, n as int) == 1 + h_new);
    assert((1 + h_new) * fc == fc + h_new * fc) by (nonlinear_arith);
    assert(count_from_perm_at(olds, n, d) == (1 + h_new) * fc + 1);
    assert(count_from_perm_at(news, n, d) == h_new * fc + falling_count(
        (n - (d + 1)) as nat,
        (k - (d + 1)) as nat,
    ));
    assert(count_from_perm_at(olds, n, d) == count_from_perm_at(news, n, d) + 1);
    lemma_count_at_prefix_diff(olds, news, n, 0, d);
}

/// If a removal stack contains every index of `1..=n`, it holds at least `n`
/// entries.
pub proof fn lemma_all_of_range_means_long(n: nat, rem: Seq<usize>)
    requires
        n <= usize::MAX,
        forall|k: usize| 1 <= k <= n ==> rem.contains(k),
    ensures
        rem.len() >= n,
    decreases n,
{
    if n >= 1 {
        assert(rem.contains(n as usize));
        let j: int = choose|j: int| 0 <= j < rem.len() && rem[j] == n as usize;
        let rem2 = rem.remove(j);
        rem.remove_ensures(j);
        assert forall|k: usize| 1 <= k <= n - 1 implies rem2.contains(k) by {
            assert(rem.contains(k));
            let m: int = choose|m: int| 0 <= m < rem.len() && rem[m] == k;
            assert(m != j);
            if m < j {
                assert(rem2[m] == k);
            } else {
                assert(rem2[m - 1] == k);
            }
        }
        lemma_all_of_range_means_long((n - 1) as nat, rem2);
    }
}

} // verus!
