//! Nodes that wait for eviction, least recently used first.

use crate::model::NodeId;
use vstd::prelude::*;

verus! {

/// A node that may be evicted, and what decides when it is its turn.
#[derive(Debug, Clone, Copy)]
pub struct EvictCandidate {
    pub timestamp: u64,
    pub uuid: usize,
    pub node: NodeId,
}

impl EvictCandidate {
    /// Whether `self` is evicted no later than `other`: the older timestamp goes first, and
    /// among equals the lower id.
    pub open spec fn le(self, other: EvictCandidate) -> bool {
        ||| self.timestamp < other.timestamp
        ||| self.timestamp == other.timestamp && self.uuid <= other.uuid
    }

    /// Whether `self` is evicted no later than `other`.
    pub fn not_after(&self, other: &EvictCandidate) -> (r: bool)
        ensures
            r == self.le(*other),
    {
        self.timestamp < other.timestamp || (self.timestamp == other.timestamp && self.uuid
            <= other.uuid)
    }
}

/// Where the parent of position `i` stands in a heap.
spec fn up(i: int) -> int {
    (i - 1) / 2
}

/// Whether position `i` is in order with the position above it.
spec fn in_order(h: Seq<EvictCandidate>, i: int) -> bool {
    h[up(i)].le(h[i])
}

/// Whether position `i` is in order with the position two above it.
spec fn in_order_above(h: Seq<EvictCandidate>, i: int) -> bool {
    h[up(up(i))].le(h[i])
}

/// Whether every position is in order with the one above it.
spec fn is_heap(h: Seq<EvictCandidate>) -> bool {
    forall|i: int| 0 < i < h.len() ==> #[trigger] in_order(h, i)
}

/// The first of a heap comes before all others.
proof fn lemma_first(h: Seq<EvictCandidate>, i: int)
    requires
        is_heap(h),
        0 <= i < h.len(),
    ensures
        h[0].le(h[i]),
    decreases i,
{
    if i > 0 {
        assert(in_order(h, i));
        lemma_first(h, up(i));
    }
}

/// A heap of candidates.
#[derive(Debug)]
pub struct EvictQueue {
    heap: Vec<EvictCandidate>,
}

impl View for EvictQueue {
    type V = Set<EvictCandidate>;

    closed spec fn view(&self) -> Set<EvictCandidate> {
        Set::new(|c: EvictCandidate| self.heap@.contains(c))
    }
}

impl EvictQueue {
    pub closed spec fn wf(&self) -> bool {
        &&& is_heap(self.heap@)
        &&& self.heap@.no_duplicates()
    }

    /// How many candidates wait.
    pub closed spec fn count(&self) -> nat {
        self.heap@.len()
    }

    pub fn new() -> (r: Self)
        ensures
            r.wf(),
            r@ == Set::<EvictCandidate>::empty(),
            r.count() == 0,
    {
        let r = Self { heap: Vec::new() };
        assert(r@ =~= Set::<EvictCandidate>::empty());
        r
    }

    /// Exchanges two positions.
    fn swap(&mut self, i: usize, j: usize)
        requires
            i < old(self).heap@.len(),
            j < old(self).heap@.len(),
            old(self).heap@.no_duplicates(),
        ensures
            final(self).heap@ == old(self).heap@.update(i as int, old(self).heap@[j as int]).update(
                j as int,
                old(self).heap@[i as int],
            ),
            final(self).heap@.no_duplicates(),
            final(self)@ == old(self)@,
    {
        let ghost h = self.heap@;
        let a = self.heap[i];
        let b = self.heap[j];
        self.heap[i] = b;
        self.heap[j] = a;
        proof {
            let g = self.heap@;
            let x = i as int;
            let y = j as int;
            // Where each position of the new order was.
            let from = |k: int| if k == x { y } else if k == y { x } else { k };
            assert(forall|k: int| 0 <= k < g.len() ==> #[trigger] g[k] == h[from(k)]);
            assert forall|k: int, l: int| 0 <= k < g.len() && 0 <= l < g.len() && k != l implies g[k]
                != g[l] by {
                assert(from(k) != from(l));
            }
            assert forall|c: EvictCandidate| g.contains(c) == h.contains(c) by {
                if g.contains(c) {
                    let k = choose|k: int| 0 <= k < g.len() && g[k] == c;
                    assert(h[from(k)] == c);
                }
                if h.contains(c) {
                    let k = choose|k: int| 0 <= k < h.len() && h[k] == c;
                    assert(g[from(k)] == c);
                }
            }
            assert(self@ =~= old(self)@);
        }
    }

    /// Adds a candidate.
    pub fn push(&mut self, candidate: EvictCandidate)
        requires
            old(self).wf(),
            !old(self)@.contains(candidate),
        ensures
            final(self).wf(),
            final(self)@ == old(self)@.insert(candidate),
            final(self).count() == old(self).count() + 1,
    {
        let ghost h0 = self.heap@;
        self.heap.push(candidate);
        let mut i = self.heap.len() - 1;
        proof {
            let h = self.heap@;
            assert forall|c: EvictCandidate| h.contains(c) == (h0.contains(c) || c == candidate) by {
                if h0.contains(c) {
                    let k = choose|k: int| 0 <= k < h0.len() && h0[k] == c;
                    assert(h[k] == c);
                }
                assert(h[h0.len() as int] == candidate);
            }
            assert(self@ =~= old(self)@.insert(candidate));
            assert(h.no_duplicates()) by {
                assert forall|k: int, l: int| 0 <= k < h.len() && 0 <= l < h.len() && k != l implies
                    h[k] != h[l] by {
                    if k < h0.len() {
                        assert(h0.contains(h0[k]));
                    }
                    if l < h0.len() {
                        assert(h0.contains(h0[l]));
                    }
                }
            }
            assert forall|k: int| 0 < k < h.len() && k != i implies #[trigger] in_order(h, k) by {
                assert(in_order(h0, k));
            }
        }
        while i > 0
            invariant
                i < self.heap@.len(),
                h0 == old(self).heap@,
                self.heap@.len() == h0.len() + 1,
                self.heap@.no_duplicates(),
                self@ == old(self)@.insert(candidate),
                forall|k: int| 0 < k < self.heap@.len() && k != i ==> #[trigger] in_order(self.heap@, k),
                forall|k: int|
                    0 < k < self.heap@.len() && i > 0 && up(k) == i ==> #[trigger] in_order_above(
                        self.heap@,
                        k,
                    ),
            decreases i,
        {
            let p = (i - 1) / 2;
            if self.heap[p].not_after(&self.heap[i]) {
                assert(in_order(self.heap@, i as int));
                assert(is_heap(self.heap@));
                return ;
            }
            let ghost h = self.heap@;
            self.swap(i, p);
            proof {
                let g = self.heap@;
                assert forall|k: int| 0 < k < g.len() && k != p implies #[trigger] in_order(g, k) by {
                    if k != i {
                        assert(in_order(h, k));
                    }
                    if up(k) == i {
                        assert(in_order_above(h, k));
                    }
                }
                assert forall|k: int| 0 < k < g.len() && p > 0 && up(k) == p implies
                    #[trigger] in_order_above(g, k) by {
                    assert(in_order(h, p as int));
                    if k != i {
                        assert(in_order(h, k));
                    }
                }
            }
            i = p;
        }
        assert(is_heap(self.heap@));
    }

    /// Puts the candidate at the top into its place.
    fn sift_down(&mut self)
        requires
            old(self).heap@.no_duplicates(),
            old(self).heap@.len() > 0,
            forall|k: int|
                0 < k < old(self).heap@.len() && up(k) != 0 ==> #[trigger] in_order(
                    old(self).heap@,
                    k,
                ),
        ensures
            final(self).wf(),
            final(self)@ == old(self)@,
            final(self).count() == old(self).count(),
    {
        let mut i: usize = 0;
        let n = self.heap.len();
        while i < n / 2
            invariant
                n == self.heap@.len(),
                n == old(self).heap@.len(),
                i < n,
                self.heap@.no_duplicates(),
                self@ == old(self)@,
                forall|k: int|
                    0 < k < self.heap@.len() && up(k) != i ==> #[trigger] in_order(self.heap@, k),
                forall|k: int|
                    0 < k < self.heap@.len() && i > 0 && up(k) == i ==> #[trigger] in_order_above(
                        self.heap@,
                        k,
                    ),
            decreases n - i,
        {
            let left = 2 * i + 1;
            let mut least = i;
            if self.heap[left].not_after(&self.heap[least]) {
                least = left;
            }
            if left + 1 < n && self.heap[left + 1].not_after(&self.heap[least]) {
                least = left + 1;
            }
            if least == i {
                proof {
                    let h = self.heap@;
                    assert forall|k: int| 0 < k < h.len() implies #[trigger] in_order(h, k) by {
                        if up(k) == i {
                            assert(k == left || k == left + 1);
                        }
                    }
                }
                return ;
            }
            let ghost h = self.heap@;
            self.swap(i, least);
            proof {
                let g = self.heap@;
                assert forall|k: int| 0 < k < g.len() && up(k) != least implies #[trigger] in_order(
                    g,
                    k,
                ) by {
                    if up(k) == i {
                        assert(k == left || k == left + 1);
                    } else if k == i {
                        assert(in_order_above(h, least as int));
                    } else {
                        assert(in_order(h, k));
                    }
                }
                assert forall|k: int| 0 < k < g.len() && least > 0 && up(k) == least implies
                    #[trigger] in_order_above(g, k) by {
                    assert(in_order(h, k));
                }
            }
            i = least;
        }
        assert(is_heap(self.heap@)) by {
            assert forall|k: int| 0 < k < self.heap@.len() implies #[trigger] in_order(
                self.heap@,
                k,
            ) by {
                assert(up(k) != i);
            }
        }
    }

    /// Takes the candidate whose turn it is.
    pub fn pop(&mut self) -> (r: Option<EvictCandidate>)
        requires
            old(self).wf(),
        ensures
            final(self).wf(),
            match r {
                Some(c) => {
                    &&& old(self)@.contains(c)
                    &&& forall|x: EvictCandidate| #[trigger] old(self)@.contains(x) ==> c.le(x)
                    &&& final(self)@ == old(self)@.remove(c)
                    &&& final(self).count() + 1 == old(self).count()
                },
                None => {
                    &&& old(self)@ == Set::<EvictCandidate>::empty()
                    &&& final(self)@ == old(self)@
                },
            },
    {
        let ghost h = self.heap@;
        match self.heap.pop() {
            None => {
                assert(self@ =~= Set::<EvictCandidate>::empty());
                None
            },
            Some(last) => {
                let ghost g = self.heap@;
                if self.heap.len() == 0 {
                    proof {
                        assert(h =~= seq![last]);
                        assert(h[0] == last);
                        assert(old(self)@.contains(last));
                        assert(self@ =~= old(self)@.remove(last));
                    }
                    return Some(last);
                }
                let first = self.heap[0];
                self.heap[0] = last;
                proof {
                    let f = self.heap@;
                    let end = h.len() - 1;
                    // Where each position was before.
                    let from = |k: int| if k == 0 { end } else { k };
                    assert(forall|k: int| 0 <= k < f.len() ==> #[trigger] f[k] == h[from(k)]);
                    assert forall|k: int, l: int| 0 <= k < f.len() && 0 <= l < f.len() && k
                        != l implies f[k] != f[l] by {
                        assert(from(k) != from(l));
                    }
                    assert(h[0] == first);
                    assert forall|c: EvictCandidate| f.contains(c) == (h.contains(c) && c != first) by {
                        if f.contains(c) {
                            let k = choose|k: int| 0 <= k < f.len() && f[k] == c;
                            assert(h[from(k)] == c);
                        }
                        if h.contains(c) && c != first {
                            let k = choose|k: int| 0 <= k < h.len() && h[k] == c;
                            let to = if k == end { 0 } else { k };
                            assert(f[to] == c);
                        }
                    }
                    assert(self@ =~= old(self)@.remove(first));
                    assert forall|k: int| 0 < k < f.len() && up(k) != 0 implies #[trigger] in_order(
                        f,
                        k,
                    ) by {
                        assert(in_order(h, k));
                    }
                    assert forall|x: EvictCandidate| #[trigger] old(self)@.contains(x) implies first.le(
                        x,
                    ) by {
                        let k = choose|k: int| 0 <= k < h.len() && h[k] == x;
                        lemma_first(h, k);
                    }
                }
                self.sift_down();
                Some(first)
            },
        }
    }
}

} // verus!
