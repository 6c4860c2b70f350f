//! Locks on nodes.

use crate::changes::{lemma_change_refs, lemma_lengths, lemma_sizes_add_up};
use crate::model::{CacheModel, NodeId, NodeModel, ROOT};
use crate::tree::{lemma_same_places, RadixTree};
use crate::trie::{lemma_above, lemma_path_prefix, lemma_prefix_pair};
use vstd::prelude::*;

verus! {

/// Nothing on the way to `n` ends after `n`.
proof fn lemma_shift_nothing(m: CacheModel, n: int, d: int)
    requires
        m.wf(),
        m.live(n),
    ensures
        m.shift_refs(n, m.prefix(n).len() as int, d) == m,
{
    assert(m.shift_refs(n, m.prefix(n).len() as int, d).nodes =~= m.nodes);
}

/// The root ends before all nodes that locks are counted on.
proof fn lemma_shift_all(m: CacheModel, n: int, d: int)
    requires
        m.wf(),
    ensures
        m.shift_refs(n, m.prefix(ROOT as int).len() as int, d) == m.shift_refs(n, 0, d),
{
}

/// Between the start and the end of `c` no other node on the way to `n` ends.
proof fn lemma_shift_step(m: CacheModel, n: int, c: int, d: int)
    requires
        m.wf(),
        m.live(n),
        c != ROOT,
        m.on_path(c, n),
    ensures
        m.live(c),
        ({
            let before = m.shift_refs(n, m.prefix(c).len() as int, d);
            let after = m.shift_refs(n, m.prefix(m.parent(c)).len() as int, d);
            &&& before.nodes[c] == m.nodes[c]
            &&& after.page_size == before.page_size
            &&& after.clock == before.clock
            &&& after.nodes == before.nodes.update(
                c,
                NodeModel {
                    ref_count: (m.nodes[c].ref_count + d) as nat,
                    ..before.nodes[c]
                },
            )
        }),
{
    lemma_path_prefix(m, c, n);
    assert(m.node_ok(c));
    let before = m.shift_refs(n, m.prefix(c).len() as int, d);
    let after = m.shift_refs(n, m.prefix(m.parent(c)).len() as int, d);
    assert forall|i: int| 0 <= i < m.nodes.len() && i != c implies after.nodes[i]
        == before.nodes[i] by {
        if i != ROOT && m.live(i) && m.prefix(i).is_prefix_of(m.prefix(n)) {
            if m.prefix(i).len() <= m.prefix(c).len() {
                lemma_prefix_pair(m.prefix(i), m.prefix(c), m.prefix(n));
                lemma_above(m, i, c);
            }
        }
    }
    assert(after.nodes =~= before.nodes.update(
        c,
        NodeModel { ref_count: (m.nodes[c].ref_count + d) as nat, ..before.nodes[c] },
    ));
}

/// The parent of a node on the way to `n` is on the way to `n`.
proof fn lemma_path_up(m: CacheModel, c: int, n: int)
    requires
        m.wf(),
        0 <= n < m.nodes.len(),
        c != ROOT,
        m.on_path(c, n),
    ensures
        m.on_path(m.parent(c), n),
    decreases m.prefix(n).len(),
{
    lemma_path_prefix(m, c, n);
    assert(m.node_ok(c));
    if c == n {
        assert(m.on_path(m.parent(c), m.parent(n)));
    } else {
        assert(m.node_ok(n));
        lemma_path_up(m, c, m.parent(n));
    }
}

impl RadixTree {
    /// Counts one lock more on `node` and all nodes above it.
    pub fn lock(&mut self, node: NodeId)
        requires
            old(self).inv(),
            old(self)@.can_lock(node as int),
        ensures
            final(self).inv(),
            final(self)@ == old(self)@.after_lock(node as int),
    {
        let ghost m = self@;
        let ghost n = node as int;
        let mut node = node;
        proof {
            lemma_shift_nothing(m, n, 1);
        }
        while node != ROOT
            invariant
                m.wf(),
                m == old(self)@,
                m.can_lock(n),
                m.on_path(node as int, n),
                0 <= node < m.nodes.len(),
                self.inv(),
                self@ == m.shift_refs(n, m.prefix(node as int).len() as int, 1),
            decreases m.prefix(node as int).len(),
        {
            let ghost c = node as int;
            let ghost cur = self@;
            let ghost before = *self;
            proof {
                assert(m.node_ok(c));
                lemma_path_prefix(m, c, n);
                lemma_shift_step(m, n, c, 1);
                lemma_path_up(m, c, n);
                assert(m.live(c));
                assert(self.node_inv(c));
                assert(cur.start(c) == m.start(c)) by {
                    let x = cur.nodes[m.parent(c)];
                }
                lemma_lengths(cur, c);
                lemma_change_refs(cur, c, (m.nodes[c].ref_count + 1) as nat);
                let after = m.shift_refs(n, m.prefix(m.parent(c)).len() as int, 1);
                assert(after == (CacheModel {
                    nodes: cur.nodes.update(
                        c,
                        NodeModel {
                            ref_count: (m.nodes[c].ref_count + 1) as nat,
                            ..cur.nodes[c]
                        },
                    ),
                    ..cur
                }));
                lemma_sizes_add_up(after);
            }
            if self.nodes[node].ref_count == 0 {
                let len = self.nodes[node].len();
                self.evictable_size = self.evictable_size - len;
                self.protected_size = self.protected_size + len;
            }
            self.nodes[node].ref_count = self.nodes[node].ref_count + 1;
            proof {
                lemma_same_places(before, *self);
                assert(self@.nodes =~= m.shift_refs(
                    n,
                    m.prefix(m.parent(c)).len() as int,
                    1,
                ).nodes);
            }
            node = self.nodes[node].parent.unwrap();
        }
        proof {
            lemma_shift_all(m, n, 1);
        }
    }

    /// Counts one lock less on `node` and all nodes above it.
    pub fn unlock(&mut self, node: NodeId)
        requires
            old(self).inv(),
            old(self)@.can_unlock(node as int),
        ensures
            final(self).inv(),
            final(self)@ == old(self)@.after_unlock(node as int),
    {
        let ghost m = self@;
        let ghost n = node as int;
        let mut node = node;
        proof {
            lemma_shift_nothing(m, n, -1);
        }
        while node != ROOT
            invariant
                m.wf(),
                m == old(self)@,
                m.can_unlock(n),
                m.on_path(node as int, n),
                0 <= node < m.nodes.len(),
                self.inv(),
                self@ == m.shift_refs(n, m.prefix(node as int).len() as int, -1),
            decreases m.prefix(node as int).len(),
        {
            let ghost c = node as int;
            let ghost cur = self@;
            let ghost before = *self;
            proof {
                assert(m.node_ok(c));
                lemma_path_prefix(m, c, n);
                lemma_shift_step(m, n, c, -1);
                lemma_path_up(m, c, n);
                assert(m.live(c));
                assert(self.node_inv(c));
                assert(cur.start(c) == m.start(c)) by {
                    let x = cur.nodes[m.parent(c)];
                }
                lemma_lengths(cur, c);
                lemma_change_refs(cur, c, (m.nodes[c].ref_count - 1) as nat);
                let after = m.shift_refs(n, m.prefix(m.parent(c)).len() as int, -1);
                assert(after == (CacheModel {
                    nodes: cur.nodes.update(
                        c,
                        NodeModel {
                            ref_count: (m.nodes[c].ref_count - 1) as nat,
                            ..cur.nodes[c]
                        },
                    ),
                    ..cur
                }));
                lemma_sizes_add_up(after);
            }
            self.nodes[node].ref_count = self.nodes[node].ref_count - 1;
            if self.nodes[node].ref_count == 0 {
                let len = self.nodes[node].len();
                self.evictable_size = self.evictable_size + len;
                self.protected_size = self.protected_size - len;
            }
            proof {
                lemma_same_places(before, *self);
                assert(self@.nodes =~= m.shift_refs(
                    n,
                    m.prefix(m.parent(c)).len() as int,
                    -1,
                ).nodes);
            }
            node = self.nodes[node].parent.unwrap();
        }
        proof {
            lemma_shift_all(m, n, -1);
        }
    }

    /// Whether `node` is in the tree, and it and all nodes above it but the root have at least
    /// `least` and at most `most` locks.
    pub fn path_locks_within(&self, node: NodeId, least: usize, most: usize) -> (r: bool)
        requires
            self.inv(),
        ensures
            r == (self@.live(node as int) && forall|i: int| #[trigger]
                self@.live(i) && i != ROOT && self@.prefix(i).is_prefix_of(
                    self@.prefix(node as int),
                ) ==> least <= self@.nodes[i].ref_count <= most),
    {
        let ghost m = self@;
        let ghost n = node as int;
        if node >= self.nodes.len() {
            return false;
        }
        if !self.nodes[node].alive {
            return false;
        }
        let mut at = node;
        while at != ROOT
            invariant
                m == self@,
                self.inv(),
                m.live(n),
                m.on_path(at as int, n),
                n == node,
                0 <= at < m.nodes.len(),
                forall|i: int| #[trigger]
                    m.live(i) && i != ROOT && m.prefix(i).is_prefix_of(m.prefix(n)) && m.prefix(
                        i,
                    ).len() > m.prefix(at as int).len() ==> least <= m.nodes[i].ref_count <= most,
            decreases m.prefix(at as int).len(),
        {
            let ghost c = at as int;
            proof {
                assert(m.node_ok(c));
                lemma_path_prefix(m, c, n);
                lemma_path_up(m, c, n);
                assert(m.live(c));
            }
            let refs = self.nodes[at].ref_count;
            assert(refs == m.nodes[c].ref_count);
            if refs < least || refs > most {
                return false;
            }
            proof {
                assert forall|i: int| #[trigger]
                    m.live(i) && i != ROOT && m.prefix(i).is_prefix_of(m.prefix(n)) && m.prefix(
                        i,
                    ).len() > m.prefix(m.parent(c)).len() implies least <= m.nodes[i].ref_count
                    <= most by {
                    if m.prefix(i).len() <= m.prefix(c).len() && i != c {
                        lemma_prefix_pair(m.prefix(i), m.prefix(c), m.prefix(n));
                        lemma_above(m, i, c);
                    }
                }
            }
            at = self.nodes[at].parent.unwrap();
        }
        proof {
            assert forall|i: int| #[trigger]
                m.live(i) && i != ROOT && m.prefix(i).is_prefix_of(m.prefix(n)) implies least
                <= m.nodes[i].ref_count <= most by {
                assert(m.node_ok(i));
            }
        }
        true
    }

    /// Whether the first `remaining` tokens on the way to `node` can be read: gives how many
    /// are missing at the end of `node`, or nothing where a node that is needed was evicted.
    pub fn readable_len(&self, node: NodeId, remaining: usize) -> (r: Option<usize>)
        requires
            self.inv(),
        ensures
            r is Some == self@.readable(node as int, remaining as int),
            r matches Some(left) ==> left == remaining - self@.indices_of(
                node as int,
                remaining as int,
            ).len(),
        decreases
                if node < self.nodes@.len() {
                    self@.prefix(node as int).len()
                } else {
                    0
                },
    {
        let ghost m = self@;
        let ghost n = node as int;
        if remaining == 0 {
            return Some(0);
        }
        if node >= self.nodes.len() {
            return None;
        }
        proof {
            lemma_lengths(m, n);
            if n != ROOT {
                assert(m.node_ok(n));
            }
        }
        if node == ROOT {
            assert(m.readable(n, remaining as int)) by {
                assert forall|a: int| #[trigger]
                    m.on_path(a, n) && a != ROOT && m.start(a) < remaining implies
                    m.nodes[a].alive by {
                    assert(a == n);
                }
            }
            return Some(remaining);
        }
        let parent = self.nodes[node].parent.unwrap();
        proof {
            lemma_lengths(m, m.parent(n));
            let rest = remaining as int;
            if m.readable(n, rest) {
                assert forall|a: int| #[trigger]
                    m.on_path(a, m.parent(n)) && a != ROOT && m.start(a) < rest implies
                    m.nodes[a].alive by {
                    assert(m.on_path(a, n));
                }
                assert(m.on_path(n, n));
            }
            if m.readable(m.parent(n), rest) && (m.start(n) < rest ==> m.nodes[n].alive) {
                assert forall|a: int| #[trigger]
                    m.on_path(a, n) && a != ROOT && m.start(a) < rest implies m.nodes[a].alive by {
                    if a != n {
                        assert(m.on_path(a, m.parent(n)));
                    }
                }
            }
        }
        match self.readable_len(parent, remaining) {
            None => None,
            Some(rest) => {
                if rest == 0 {
                    return Some(0);
                }
                if !self.nodes[node].alive {
                    return None;
                }
                proof {
                    assert(self.node_inv(n));
                }
                let len = self.nodes[node].len();
                if rest < len {
                    Some(0)
                } else {
                    Some(rest - len)
                }
            },
        }
    }
}

} // verus!
