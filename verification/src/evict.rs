//! Eviction of unlocked leaves, least recently used first.

use crate::changes::{lemma_lengths, lemma_remove, lemma_sizes_add_up};
use crate::draining::{
    lemma_drainable_evictable, lemma_lru_unique, lemma_remove_drains, lemma_something_to_evict,
};
use crate::model::{CacheModel, NodeId, Token, ROOT};
use crate::node::RadixTreeNode;
use crate::queue::{EvictCandidate, EvictQueue};
use crate::sums::{lemma_sum_more, sum_below};
use crate::tree::{path_ok, paths_of, RadixTree};
use crate::trie::{
    lemma_above, lemma_page_fits, lemma_path_prefix, lemma_prefix_pair, lemma_prefix_path,
    lemma_prefix_self, lemma_prefix_trans, lemma_root_on_path, lemma_step_down,
};
use vstd::prelude::*;
use vstd::set_lib::{lemma_int_range, lemma_len_subset, set_int_range};

verus! {

/// Whether `c` stands for a leaf that may be evicted.
pub open spec fn is_candidate(m: CacheModel, c: EvictCandidate) -> bool {
    &&& m.evictable_leaf(c.node as int)
    &&& c.uuid == c.node
    &&& c.timestamp == m.nodes[c.node as int].timestamp
}

/// Whether node `a` of the tree stands at or above node `b`.
spec fn over(m: CacheModel, a: int, b: int) -> bool {
    m.prefix(a).is_prefix_of(m.prefix(b))
}

/// How far a search for leaves has come: the nodes in `done` were seen, those on the stack and
/// under them were not, and those are all.
spec fn searching(m: CacheModel, stack: Seq<NodeId>, done: Set<int>) -> bool {
    &&& forall|a: int| 0 <= a < stack.len() ==> m.live(#[trigger] stack[a] as int)
    &&& forall|a: int, b: int|
        0 <= a < stack.len() && 0 <= b < stack.len() && a != b ==> !#[trigger] over(
            m,
            stack[a] as int,
            stack[b] as int,
        )
    &&& forall|d: int| #[trigger] done.contains(d) ==> m.live(d)
    &&& forall|a: int, d: int|
        0 <= a < stack.len() && done.contains(d) ==> !#[trigger] over(m, stack[a] as int, d)
    &&& forall|j: int| #[trigger]
        m.live(j) && !done.contains(j) ==> exists|a: int|
            0 <= a < stack.len() && #[trigger] over(m, stack[a] as int, j)
}

/// Whether `kids` are the nodes under `x`, each once.
spec fn kids_of(m: CacheModel, x: int, kids: Seq<NodeId>) -> bool {
    &&& kids.no_duplicates()
    &&& forall|e: int|
        0 <= e < kids.len() ==> {
            let c = #[trigger] kids[e] as int;
            m.live(c) && c != ROOT && m.parent(c) == x
        }
    &&& forall|c: int| #[trigger]
        m.live(c) && c != ROOT && m.parent(c) == x ==> kids.contains(c as usize)
}

/// A step of the search: the last node on the stack is seen, and those under it are put there.
proof fn lemma_search_step(
    m: CacheModel,
    stack: Seq<NodeId>,
    done: Set<int>,
    kids: Seq<NodeId>,
)
    requires
        m.wf(),
        m.nodes.len() <= usize::MAX,
        stack.len() > 0,
        searching(m, stack, done),
        kids_of(m, stack.last() as int, kids),
    ensures
        !done.contains(stack.last() as int),
        searching(m, stack.drop_last() + kids, done.insert(stack.last() as int)),
{
    let x = stack.last() as int;
    let last = stack.len() - 1;
    let rest = stack.drop_last();
    let next = rest + kids;
    let seen = done.insert(x);
    assert(x == stack[last] as int);
    lemma_prefix_self(m.prefix(x));
    if done.contains(x) {
        assert(over(m, stack[last] as int, x));
    }
    assert forall|a: int| 0 <= a < next.len() implies m.live(#[trigger] next[a] as int) by {
        if a < rest.len() {
            assert(next[a] == stack[a]);
        } else {
            assert(next[a] == kids[a - rest.len()]);
        }
    }
    // A node above one of `kids` stands above `x`.
    assert forall|a: int, e: int| 0 <= a < last && 0 <= e < kids.len() implies !#[trigger] over(
        m,
        stack[a] as int,
        kids[e] as int,
    ) by {
        let s = stack[a] as int;
        let c = kids[e] as int;
        assert(m.node_ok(c));
        assert(!over(m, stack[a] as int, stack[last] as int));
        assert(!over(m, stack[last] as int, stack[a] as int));
        if over(m, s, c) && s != c {
            lemma_above(m, s, c);
        }
    }
    // A node under one of `kids` stands under `x`.
    assert forall|a: int, e: int| 0 <= a < last && 0 <= e < kids.len() implies !#[trigger] over(
        m,
        kids[e] as int,
        stack[a] as int,
    ) by {
        let s = stack[a] as int;
        let c = kids[e] as int;
        assert(m.node_ok(c));
        assert(!over(m, stack[last] as int, stack[a] as int));
        if over(m, c, s) {
            lemma_prefix_trans(m.prefix(x), m.prefix(c), m.prefix(s));
        }
    }
    assert forall|a: int, b: int|
        0 <= a < next.len() && 0 <= b < next.len() && a != b implies !#[trigger] over(
        m,
        next[a] as int,
        next[b] as int,
    ) by {
        if a < rest.len() && b < rest.len() {
            assert(next[a] == stack[a] && next[b] == stack[b]);
            assert(!over(m, stack[a] as int, stack[b] as int));
        } else if a < rest.len() {
            assert(next[a] == stack[a] && next[b] == kids[b - rest.len()]);
            assert(!over(m, stack[a] as int, kids[b - rest.len()] as int));
        } else if b < rest.len() {
            assert(next[a] == kids[a - rest.len()] && next[b] == stack[b]);
            assert(!over(m, kids[a - rest.len()] as int, stack[b] as int));
        } else {
            let e = a - rest.len();
            let g = b - rest.len();
            assert(next[a] == kids[e] && next[b] == kids[g]);
            assert(kids[e] != kids[g]);
            assert(m.node_ok(kids[e] as int));
            assert(m.node_ok(kids[g] as int));
            if over(m, kids[e] as int, kids[g] as int) {
                lemma_above(m, kids[e] as int, kids[g] as int);
            }
        }
    }
    assert forall|a: int, d: int| 0 <= a < next.len() && seen.contains(d) implies !#[trigger] over(
        m,
        next[a] as int,
        d,
    ) by {
        if a < rest.len() {
            assert(next[a] == stack[a]);
            if d == x {
                assert(!over(m, stack[a] as int, stack[last] as int));
            } else {
                assert(!over(m, stack[a] as int, d));
            }
        } else {
            let c = kids[a - rest.len()] as int;
            assert(next[a] as int == c);
            assert(m.node_ok(c));
            if over(m, c, d) && d != x {
                lemma_prefix_trans(m.prefix(x), m.prefix(c), m.prefix(d));
                assert(over(m, stack[last] as int, d));
            }
        }
    }
    assert forall|j: int| #[trigger] m.live(j) && !seen.contains(j) implies exists|a: int|
        0 <= a < next.len() && #[trigger] over(m, next[a] as int, j) by {
        let b = choose|a: int| 0 <= a < stack.len() && #[trigger] over(m, stack[a] as int, j);
        if b < last {
            assert(next[b] == stack[b]);
            assert(over(m, next[b] as int, j));
        } else {
            lemma_prefix_path(m, x, j);
            let c = lemma_step_down(m, x, j);
            lemma_path_prefix(m, c, j);
            assert(m.live(c));
            let e = choose|e: int| 0 <= e < kids.len() && kids[e] == c as usize;
            let a = rest.len() + e;
            assert(next[a] == kids[e]);
            assert(over(m, next[a] as int, j));
        }
    }
}

/// After a leaf is taken out as `evict` does it, the entries lead to where the nodes hang.
proof fn lemma_remove_inv(was: RadixTree, now: RadixTree, i: int)
    requires
        was.inv(),
        was@.evictable_leaf(i),
        now.page_size == was.page_size,
        now.next_timestamp == was.next_timestamp,
        now.evictable_size == was.evictable_size - was@.key_len(i),
        now.protected_size == was.protected_size,
        ({
            let p = was@.parent(i);
            &&& now.nodes@.len() == was.nodes@.len()
            &&& forall|k: int|
                0 <= k < was.nodes@.len() && k != p && k != i ==> #[trigger] now.nodes@[k]
                    == was.nodes@[k]
            &&& now.nodes@[i] == (RadixTreeNode { alive: false, ..was.nodes@[i] })
            &&& now.nodes@[p].children.wf()
            &&& now.nodes@[p].children@ == was.nodes@[p].children@.remove(was@.page(i))
            &&& now.nodes@[p] == (RadixTreeNode {
                children: now.nodes@[p].children,
                ..was.nodes@[p]
            })
        }),
    ensures
        now@ == was@.remove(i),
        now.inv(),
{
    let m = was@;
    let p = m.parent(i);
    assert(m.node_ok(i));
    assert(was.node_inv(p));
    let paths = paths_of(was.nodes@);
    assert forall|k: int| 0 < k < now.nodes@.len() implies #[trigger] path_ok(
        now.nodes@,
        paths,
        k,
    ) by {
        assert(path_ok(was.nodes@, paths, k));
    }
    now.lemma_view(paths);
    let t = now@;
    assert(t.nodes =~= m.remove(i).nodes);
    lemma_remove(m, i);
    lemma_lengths(m, i);
    assert forall|c: int| c != ROOT && c != i && #[trigger] m.live(c) implies t.parent(c)
        == m.parent(c) && t.page(c) == m.page(c) && t.live(c) by {
        assert(m.node_ok(c));
        assert(t.page(c) =~= m.page(c));
    }
    assert forall|k: int| 0 <= k < now.nodes@.len() implies #[trigger] now.node_inv(k) by {
        assert(was.node_inv(k));
        if k != ROOT {
            assert(m.node_ok(k));
        }
        assert(t.key(k) =~= m.key(k));
        assert(t.value(k) =~= m.value(k));
        assert forall|q: Seq<Token>| now.nodes@[k].children@.dom().contains(q) implies
            #[trigger] now.child_ok(k, q) by {
            assert(was.child_ok(k, q));
            assert(m.live(was.nodes@[k].children@[q] as int));
        }
    }
    assert forall|c: int| c != ROOT && #[trigger] t.live(c) implies now.listed(c) by {
        assert(m.live(c));
        assert(was.listed(c));
        assert(was.listed(i)) by {
            assert(m.live(i));
        }
        assert(m.node_ok(c));
    }
}

/// What was seen is part of the arena, and the node on top of the stack was not seen.
proof fn lemma_done_room(m: CacheModel, done: Set<int>, x: int, stack: Seq<NodeId>)
    requires
        searching(m, stack, done),
        stack.len() > 0,
        x == stack[stack.len() - 1] as int,
        done.finite(),
        done.subset_of(set_int_range(0, m.nodes.len() as int)),
    ensures
        m.live(x),
        !done.contains(x),
        done.insert(x).finite(),
        done.insert(x).len() == done.len() + 1,
        done.insert(x).len() <= m.nodes.len(),
        done.insert(x).subset_of(set_int_range(0, m.nodes.len() as int)),
{
    let all = set_int_range(0, m.nodes.len() as int);
    lemma_prefix_self(m.prefix(x));
    if done.contains(x) {
        assert(over(m, stack[stack.len() - 1] as int, x));
    }
    lemma_int_range(0, m.nodes.len() as int);
    lemma_len_subset(done.insert(x), all);
}

/// The entries of a node are the nodes under it.
proof fn lemma_kids(t: RadixTree, x: int, kids: Seq<NodeId>)
    requires
        t.inv(),
        0 <= x < t.nodes@.len(),
        kids == Seq::new(
            t.nodes@[x].children.count(),
            |e: int| t.nodes@[x].children.node_at(e),
        ),
    ensures
        kids_of(t@, x, kids),
{
    let m = t@;
    let map = t.nodes@[x].children;
    assert(t.node_inv(x));
    assert forall|e: int| 0 <= e < kids.len() implies {
        let c = #[trigger] kids[e] as int;
        m.live(c) && c != ROOT && m.parent(c) == x
    } by {
        map.lemma_entry(e);
        assert(t.child_ok(x, map.key_at(e)));
    }
    assert forall|e: int, g: int| 0 <= e < kids.len() && 0 <= g < kids.len() && e != g implies
        kids[e] != kids[g] by {
        map.lemma_entry(e);
        map.lemma_entry(g);
        assert(t.child_ok(x, map.key_at(e)));
        assert(t.child_ok(x, map.key_at(g)));
        if kids[e] == kids[g] {
            map.lemma_distinct(e, g);
        }
    }
    assert forall|c: int| #[trigger] m.live(c) && c != ROOT && m.parent(c) == x implies kids.contains(
        c as usize,
    ) by {
        assert(t.listed(c));
        let j = map.lemma_find(m.page(c));
        map.lemma_entry(j);
        assert(kids[j] == c as usize);
    }
}

/// The candidate that stands for an evictable leaf.
proof fn lemma_candidate_of(t: RadixTree, i: int) -> (c: EvictCandidate)
    requires
        t.inv(),
        t@.evictable_leaf(i),
    ensures
        is_candidate(t@, c),
        c.node == i,
{
    EvictCandidate { timestamp: t.nodes@[i].timestamp, uuid: i as usize, node: i as usize }
}

/// The candidate that comes first of all stands for the least recently used leaf.
proof fn lemma_turn(t: RadixTree, waiting: Set<EvictCandidate>, candidate: EvictCandidate)
    requires
        t.inv(),
        forall|c: EvictCandidate| #[trigger] waiting.contains(c) == is_candidate(t@, c),
        waiting.contains(candidate),
        forall|c: EvictCandidate| #[trigger] waiting.contains(c) ==> candidate.le(c),
    ensures
        t@.is_lru_leaf(candidate.node as int),
        t@.lru_leaf() == candidate.node,
{
    let m = t@;
    let n = candidate.node as int;
    assert forall|j: int| #[trigger] m.evictable_leaf(j) implies m.before(n, j) by {
        let c = lemma_candidate_of(t, j);
        assert(waiting.contains(c));
    }
    lemma_lru_unique(m, n);
}

/// Where node `i` is taken out, only its parent can become a leaf that may be evicted.
proof fn lemma_leaves_after(m: CacheModel, i: int, c: EvictCandidate)
    requires
        m.wf(),
        m.evictable_leaf(i),
    ensures
        !m.evictable_leaf(m.parent(i)),
        c.node != m.parent(i) ==> is_candidate(m.remove(i), c) == (is_candidate(m, c) && c.node
            != i),
{
    let t = m.remove(i);
    assert(m.node_ok(i));
    assert(m.live(i));
    let j = c.node as int;
    if j != m.parent(i) {
        if t.evictable_leaf(j) {
            assert forall|k: int| #[trigger] m.live(k) && k != ROOT implies m.parent(k) != j by {
                if k != i {
                    assert(t.live(k));
                }
            }
        }
        if m.evictable_leaf(j) && j != i {
            assert forall|k: int| #[trigger] t.live(k) && k != ROOT implies t.parent(k) != j by {
                assert(m.live(k));
            }
        }
    }
}

impl RadixTree {
    /// Whether `node` may be evicted: an unlocked leaf of the tree.
    pub fn is_evictable_leaf(&self, node: NodeId) -> (r: bool)
        requires
            self.inv(),
            node < self.nodes@.len(),
        ensures
            r == self@.evictable_leaf(node as int),
    {
        let ghost n = node as int;
        proof {
            assert(self.node_inv(n));
            let kids = self.nodes@[n].children@;
            if kids == Map::<Seq<Token>, NodeId>::empty() {
                assert forall|j: int| #[trigger] self@.live(j) && j != ROOT implies self@.parent(j)
                    != n by {
                    assert(self.listed(j));
                }
            } else {
                assert(exists|k: Seq<Token>| kids.dom().contains(k)) by {
                    if forall|k: Seq<Token>| !kids.dom().contains(k) {
                        assert(kids =~= Map::<Seq<Token>, NodeId>::empty());
                    }
                }
                let k = choose|k: Seq<Token>| kids.dom().contains(k);
                assert(self.child_ok(n, k));
                assert(self@.live(kids[k] as int));
                assert(!self@.is_leaf(n));
            }
        }
        node != ROOT && self.nodes[node].alive && self.nodes[node].ref_count == 0
            && self.nodes[node].is_leaf()
    }

    fn candidate(&self, node: NodeId) -> (r: EvictCandidate)
        requires
            self.inv(),
            self@.evictable_leaf(node as int),
        ensures
            is_candidate(self@, r),
            r.node == node,
    {
        proof {
            assert(self.node_inv(node as int));
        }
        EvictCandidate {
            timestamp: self.nodes[node].timestamp,
            uuid: self.nodes[node].uuid,
            node,
        }
    }

    /// Searches the tree for the leaves that may be evicted.
    pub fn collect_leaf_nodes_for_evict(&self) -> (r: EvictQueue)
        requires
            self.inv(),
        ensures
            r.wf(),
            forall|c: EvictCandidate| #[trigger] r@.contains(c) == is_candidate(self@, c),
    {
        let ghost m = self@;
        let ghost total: usize = self.nodes.len();
        let mut queue = EvictQueue::new();
        let mut stack: Vec<NodeId> = Vec::new();
        stack.push(ROOT);
        let ghost mut done = Set::<int>::empty();
        proof {
            assert forall|j: int| #[trigger] m.live(j) && !done.contains(j) implies exists|a: int|
                0 <= a < stack@.len() && #[trigger] over(m, stack@[a] as int, j) by {
                lemma_root_on_path(m, j);
                lemma_path_prefix(m, ROOT as int, j);
                assert(over(m, stack@[0] as int, j));
            }
        }
        while stack.len() > 0
            invariant
                m == self@,
                m.nodes.len() == total,
                self.inv(),
                queue.wf(),
                searching(m, stack@, done),
                done.finite(),
                done.subset_of(set_int_range(0, m.nodes.len() as int)),
                forall|c: EvictCandidate| #[trigger]
                    queue@.contains(c) == (done.contains(c.node as int) && is_candidate(m, c)),
            decreases m.nodes.len() - done.len(),
        {
            let ghost before = stack@;
            let node = stack.pop().unwrap();
            let ghost x = node as int;
            assert(x == before[before.len() - 1] as int);
            proof {
                assert(self.node_inv(x));
                lemma_done_room(m, done, x, before);
            }
            if self.is_evictable_leaf(node) {
                proof {
                    let none = Seq::<NodeId>::empty();
                    assert(kids_of(m, x, none));
                    lemma_search_step(m, before, done, none);
                    assert(stack@ =~= before.drop_last() + none);
                }
                queue.push(self.candidate(node));
            } else {
                let count = self.nodes[node].children.len();
                let ghost kids = Seq::new(
                    count as nat,
                    |e: int| self.nodes@[x].children.node_at(e),
                );
                let mut e: usize = 0;
                while e < count
                    invariant
                        m == self@,
                        self.inv(),
                        x == node,
                        node < self.nodes@.len(),
                        self.nodes@[x].children.wf(),
                        count == self.nodes@[x].children.count(),
                        kids == Seq::new(
                            count as nat,
                            |e: int| self.nodes@[x].children.node_at(e),
                        ),
                        e <= count,
                        stack@ == before.drop_last() + kids.take(e as int),
                    decreases count - e,
                {
                    let (_, child) = self.nodes[node].children.entry(e);
                    stack.push(child);
                    e = e + 1;
                    proof {
                        assert(kids.take(e as int) =~= kids.take(e - 1).push(child));
                        assert(stack@ =~= before.drop_last() + kids.take(e as int));
                    }
                }
                proof {
                    assert(kids.take(count as int) =~= kids);
                    lemma_kids(*self, x, kids);
                    lemma_search_step(m, before, done, kids);
                }
            }
            proof {
                done = done.insert(x);
            }
        }
        proof {
            assert forall|c: EvictCandidate| #[trigger] queue@.contains(c) == is_candidate(m, c) by {
                if is_candidate(m, c) {
                    assert(m.live(c.node as int));
                }
            }
        }
        queue
    }

    /// Takes the given leaf out of the tree.
    fn remove_leaf(&mut self, node: NodeId) -> (r: NodeId)
        requires
            old(self).inv(),
            old(self)@.evictable_leaf(node as int),
        ensures
            final(self).inv(),
            final(self)@ == old(self)@.remove(node as int),
            final(self).evictable_size == old(self).evictable_size - old(self)@.key_len(
                node as int,
            ),
            r == old(self)@.parent(node as int),
            r < old(self).nodes@.len(),
    {
        let ghost was = *self;
        let ghost m = self@;
        let ghost n = node as int;
        proof {
            assert(m.node_ok(n));
            assert(self.node_inv(n));
            assert(self.node_inv(m.parent(n)));
            lemma_page_fits(m, n);
            lemma_lengths(m, n);
            lemma_remove(m, n);
            lemma_sizes_add_up(m.remove(n));
        }
        let len = self.nodes[node].len();
        self.evictable_size = self.evictable_size - len;
        let parent = self.nodes[node].parent.unwrap();
        let child_key = self.child_key_owned(self.nodes[node].key.as_slice());
        assert(child_key@ =~= m.page(n));
        self.nodes[parent].children.remove(child_key.as_slice());
        self.nodes[node].alive = false;
        proof {
            lemma_remove_inv(was, *self, n);
        }
        parent
    }

    /// Evicts unlocked leaves, least recently used first, until they add up to `size` tokens.
    /// Gives their cache indices. Nodes are taken out whole, so more than `size` may go.
    pub fn evict(&mut self, size: usize) -> (r: Vec<Token>)
        requires
            old(self).inv(),
            size <= old(self)@.drainable_size(),
        ensures
            final(self).inv(),
            final(self)@ == old(self)@.evict(size as nat).0,
            r@ == old(self)@.evict(size as nat).1,
            r@.len() >= size,
    {
        let ghost m = self@;
        if size == 0 {
            return Vec::new();
        }
        let mut queue = self.collect_leaf_nodes_for_evict();
        let mut evicted_indices: Vec<Token> = Vec::new();
        let mut evicted_size: usize = 0;
        let ghost mut rest = size as nat;
        proof {
            assert(evicted_indices@ + m.evict(rest).1 =~= m.evict(rest).1);
        }
        while evicted_size < size
            invariant
                m == old(self)@,
                self.inv(),
                queue.wf(),
                forall|c: EvictCandidate| #[trigger] queue@.contains(c) == is_candidate(self@, c),
                rest == (if evicted_size < size {
                    size - evicted_size
                } else {
                    0
                }),
                rest <= self@.drainable_size(),
                evicted_size + self.evictable_size <= usize::MAX,
                evicted_size == evicted_indices@.len(),
                m.evict(size as nat).0 == self@.evict(rest).0,
                m.evict(size as nat).1 == evicted_indices@ + self@.evict(rest).1,
            decreases rest,
        {
            let ghost cur = self@;
            let ghost out = evicted_indices@;
            let ghost i = cur.lru_leaf();
            proof {
                lemma_something_to_evict(cur);
                let first = lemma_candidate_of(*self, i);
                assert(queue@.contains(first));
                lemma_drainable_evictable(cur);
            }
            let ghost queued = queue@;
            let candidate = queue.pop().unwrap();
            let node = candidate.node;
            proof {
                lemma_turn(*self, queued, candidate);
                assert(cur.node_ok(i));
                assert(self.node_inv(i));
                lemma_lengths(cur, i);
                lemma_remove(cur, i);
                lemma_remove_drains(cur, i);
                lemma_sizes_add_up(cur);
                lemma_sizes_add_up(cur.remove(i));
                lemma_drainable_evictable(cur.remove(i));
            }
            evicted_size = evicted_size + self.nodes[node].len();
            evicted_indices.extend_from_slice(self.nodes[node].value.as_slice());
            proof {
                assert(evicted_indices@ =~= out + cur.value(i));
                rest = if evicted_size < size {
                    (size - evicted_size) as nat
                } else {
                    0
                };
                let tail = cur.remove(i).evict(rest).1;
                assert(out + (cur.value(i) + tail) =~= evicted_indices@ + tail);
            }
            let parent = self.remove_leaf(node);
            proof {
                assert forall|c: EvictCandidate| c.node != parent implies #[trigger] queue@.contains(c)
                    == is_candidate(self@, c) by {
                    lemma_leaves_after(cur, i, c);
                }
                assert forall|c: EvictCandidate| c.node == parent implies !#[trigger] queue@.contains(
                    c,
                ) by {
                    lemma_leaves_after(cur, i, c);
                }
            }
            if self.is_evictable_leaf(parent) {
                queue.push(self.candidate(parent));
            }
        }
        proof {
            assert(evicted_indices@ + Seq::<Token>::empty() =~= evicted_indices@);
        }
        evicted_indices
    }

    /// Marks `node` and all nodes above it but the root.
    fn mark_path(&self, node: NodeId, marks: &mut Vec<bool>)
        requires
            self.inv(),
            self@.live(node as int),
            old(marks)@.len() == self.nodes@.len(),
        ensures
            final(marks)@.len() == old(marks)@.len(),
            forall|a: int|
                a != ROOT && #[trigger] self@.live(a) ==> final(marks)@[a] == (old(marks)@[a]
                    || over(self@, a, node as int)),
    {
        let ghost m = self@;
        let ghost n = node as int;
        let mut at = node;
        while at != ROOT
            invariant
                m == self@,
                self.inv(),
                n == node,
                m.live(n),
                m.live(at as int),
                over(m, at as int, n),
                marks@.len() == m.nodes.len(),
                marks@.len() == old(marks)@.len(),
                forall|a: int|
                    a != ROOT && #[trigger] m.live(a) ==> marks@[a] == (old(marks)@[a] || (over(
                        m,
                        a,
                        n,
                    ) && m.prefix(a).len() > m.prefix(at as int).len())),
            decreases m.prefix(at as int).len(),
        {
            let ghost c = at as int;
            proof {
                assert(m.node_ok(c));
            }
            marks[at] = true;
            at = self.nodes[at].parent.unwrap();
            proof {
                let p = m.parent(c);
                lemma_prefix_trans(m.prefix(p), m.prefix(c), m.prefix(n));
                assert forall|a: int| a != ROOT && #[trigger] m.live(a) implies marks@[a] == (old(
                    marks,
                )@[a] || (over(m, a, n) && m.prefix(a).len() > m.prefix(p).len())) by {
                    if a != c && over(m, a, n) && m.prefix(a).len() <= m.prefix(c).len() {
                        lemma_prefix_pair(m.prefix(a), m.prefix(c), m.prefix(n));
                        lemma_above(m, a, c);
                    }
                }
            }
        }
        proof {
            lemma_prefix_self(m.prefix(n));
            assert forall|a: int| a != ROOT && #[trigger] m.live(a) implies marks@[a] == (old(
                marks,
            )@[a] || over(m, a, n)) by {
                assert(m.node_ok(a));
            }
        }
    }

    /// How many tokens eviction can get at: those of nodes with no lock on them or below.
    pub fn drainable_size(&self) -> (r: usize)
        requires
            self.inv(),
        ensures
            r == self@.drainable_size(),
    {
        let ghost m = self@;
        let n = self.nodes.len();
        let mut blocked: Vec<bool> = vec![false; n];
        let mut i: usize = 0;
        while i < n
            invariant
                m == self@,
                self.inv(),
                n == m.nodes.len(),
                i <= n,
                blocked@.len() == n,
                forall|a: int|
                    a != ROOT && #[trigger] m.live(a) ==> (blocked@[a] <==> exists|j: int|
                        0 <= j < i && #[trigger] m.live(j) && m.nodes[j].ref_count > 0 && over(
                            m,
                            a,
                            j,
                        )),
            decreases n - i,
        {
            let ghost before = blocked@;
            if self.nodes[i].alive && self.nodes[i].ref_count > 0 {
                self.mark_path(i, &mut blocked);
            }
            proof {
                let x = m.nodes[i as int];
                assert forall|a: int| a != ROOT && #[trigger] m.live(a) implies (blocked@[a]
                    <==> exists|j: int|
                    0 <= j < i + 1 && #[trigger] m.live(j) && m.nodes[j].ref_count > 0 && over(
                        m,
                        a,
                        j,
                    )) by {
                    if blocked@[a] && !before[a] {
                        assert(m.live(i as int));
                    }
                    if before[a] {
                        let j = choose|j: int|
                            0 <= j < i && #[trigger] m.live(j) && m.nodes[j].ref_count > 0 && over(
                                m,
                                a,
                                j,
                            );
                        assert(m.live(j));
                    }
                }
            }
            i = i + 1;
        }
        let mut total: usize = 0;
        let mut k: usize = 0;
        let ghost count = |i: int| m.drainable_count(i);
        proof {
            lemma_drainable_evictable(m);
            assert forall|i: int| 0 <= i < n implies #[trigger] count(i) >= 0 by {
                if i != ROOT {
                    assert(m.node_ok(i));
                }
            }
        }
        while k < n
            invariant
                m == self@,
                self.inv(),
                n == m.nodes.len(),
                k <= n,
                blocked@.len() == n,
                count == (|i: int| m.drainable_count(i)),
                forall|i: int| 0 <= i < n ==> #[trigger] count(i) >= 0,
                forall|a: int|
                    a != ROOT && #[trigger] m.live(a) ==> (blocked@[a] <==> exists|j: int|
                        0 <= j < n && #[trigger] m.live(j) && m.nodes[j].ref_count > 0 && over(
                            m,
                            a,
                            j,
                        )),
                total == sum_below(count, k as nat),
                m.drainable_size() <= usize::MAX,
            decreases n - k,
        {
            proof {
                assert(self.node_inv(k as int));
                lemma_lengths(m, k as int);
                lemma_sum_more(count, (k + 1) as nat, n as nat);
                let x = m.nodes[k as int];
                if k != ROOT && m.live(k as int) {
                    if m.drains(k as int) {
                        assert(!blocked@[k as int]);
                    }
                }
            }
            if k != ROOT && self.nodes[k].alive && !blocked[k] {
                proof {
                    assert(m.live(k as int));
                    assert(m.drains(k as int));
                }
                total = total + self.nodes[k].len();
            }
            k = k + 1;
        }
        total
    }
}

} // verus!
