//! What eviction can get at, and in which order.

use crate::model::{CacheModel, ROOT};
use crate::sums::{lemma_sum_change, lemma_sum_le, lemma_sum_nonneg, lemma_sum_positive};
use crate::trie::{
    lemma_path_prefix, lemma_prefix_path, lemma_prefix_self, lemma_prefix_trans, lemma_step_down,
};
use vstd::prelude::*;

verus! {

/// Under a leaf there is no node but itself.
pub proof fn lemma_leaf_alone(m: CacheModel, i: int, j: int)
    requires
        m.wf(),
        m.live(i),
        m.is_leaf(i),
        m.live(j),
        m.prefix(i).is_prefix_of(m.prefix(j)),
    ensures
        i == j,
{
    if i != j {
        lemma_prefix_path(m, i, j);
        let a = lemma_step_down(m, i, j);
        lemma_path_prefix(m, a, j);
        assert(m.live(a));
    }
}

/// Removing an unlocked leaf takes its tokens from those that can be evicted, and no others.
pub proof fn lemma_remove_drains(m: CacheModel, i: int)
    requires
        m.wf(),
        m.evictable_leaf(i),
    ensures
        m.drains(i),
        m.remove(i).drainable_size() == m.drainable_size() - m.key_len(i),
{
    let t = m.remove(i);
    assert(m.drains(i)) by {
        assert forall|j: int| #[trigger]
            m.live(j) && m.prefix(i).is_prefix_of(m.prefix(j)) implies m.nodes[j].ref_count
            == 0 by {
            lemma_leaf_alone(m, i, j);
        }
    }
    assert forall|k: int| 0 <= k < m.nodes.len() && k != i implies t.drainable_count(k)
        == m.drainable_count(k) by {
        if k != ROOT {
            assert(m.node_ok(k));
        }
        if t.drains(k) {
            assert forall|j: int| #[trigger]
                m.live(j) && m.prefix(k).is_prefix_of(m.prefix(j)) implies m.nodes[j].ref_count
                == 0 by {
                if j != i {
                    assert(t.live(j));
                }
            }
            assert(m.drains(k));
        }
        if m.drains(k) {
            assert forall|j: int| #[trigger]
                t.live(j) && t.prefix(k).is_prefix_of(t.prefix(j)) implies t.nodes[j].ref_count
                == 0 by {
                assert(m.live(j));
            }
            assert(t.drains(k));
        }
    }
    assert(!t.live(i));
    lemma_sum_change(
        |k: int| m.drainable_count(k),
        |k: int| t.drainable_count(k),
        m.nodes.len(),
        i,
    );
}

/// What can be evicted is part of what no lock protects.
pub proof fn lemma_drainable_evictable(m: CacheModel)
    requires
        m.wf(),
    ensures
        0 <= m.drainable_size() <= m.evictable_size(),
{
    assert forall|i: int| 0 <= i < m.nodes.len() implies 0 <= #[trigger] m.drainable_count(
        i,
    ) <= m.evictable_count(i) by {
        if i != ROOT {
            assert(m.node_ok(i));
        }
        if m.drains(i) {
            lemma_prefix_self(m.prefix(i));
            assert(m.live(i));
        }
    }
    lemma_sum_nonneg(|i: int| m.drainable_count(i), m.nodes.len());
    lemma_sum_le(
        |i: int| m.drainable_count(i),
        |i: int| m.evictable_count(i),
        m.nodes.len(),
    );
}

/// The node with the longest prefix among `k` and those below id `n` that stand under it.
proof fn lemma_deepest(m: CacheModel, k: int, n: nat) -> (j: int)
    requires
        m.live(k),
        n <= m.nodes.len(),
    ensures
        m.live(j),
        m.prefix(k).is_prefix_of(m.prefix(j)),
        m.prefix(j).len() >= m.prefix(k).len(),
        forall|x: int| #[trigger]
            m.live(x) && x < n && m.prefix(k).is_prefix_of(m.prefix(x)) ==> m.prefix(x).len()
                <= m.prefix(j).len(),
    decreases n,
{
    lemma_prefix_self(m.prefix(k));
    if n == 0 {
        k
    } else {
        let last = n - 1;
        let j = lemma_deepest(m, k, last as nat);
        if m.live(last) && m.prefix(k).is_prefix_of(m.prefix(last)) && m.prefix(last).len()
            > m.prefix(j).len() {
            last
        } else {
            j
        }
    }
}

/// Among the evictable leaves below id `n`, if there are any, one is the least recently used.
proof fn lemma_least_leaf(m: CacheModel, n: nat) -> (i: int)
    ensures
        (exists|j: int| 0 <= j < n && #[trigger] m.evictable_leaf(j)) ==> {
            &&& m.evictable_leaf(i)
            &&& forall|j: int| j < n && #[trigger] m.evictable_leaf(j) ==> m.before(i, j)
        },
    decreases n,
{
    if n == 0 {
        0
    } else {
        let last = n - 1;
        let i = lemma_least_leaf(m, last as nat);
        if !m.evictable_leaf(last) {
            i
        } else if exists|j: int| 0 <= j < last && #[trigger] m.evictable_leaf(j) {
            if m.before(i, last) {
                i
            } else {
                last
            }
        } else {
            last
        }
    }
}

/// Where there is an evictable leaf there is a least recently used one.
pub proof fn lemma_lru_exists(m: CacheModel, j: int)
    requires
        m.evictable_leaf(j),
    ensures
        m.is_lru_leaf(m.lru_leaf()),
{
    let i = lemma_least_leaf(m, m.nodes.len());
    assert(m.is_lru_leaf(i));
}

/// No two leaves are the least recently used.
pub proof fn lemma_lru_unique(m: CacheModel, i: int)
    requires
        m.is_lru_leaf(i),
    ensures
        m.lru_leaf() == i,
{
    let j = m.lru_leaf();
    assert(m.is_lru_leaf(j));
    assert(m.evictable_leaf(i));
    assert(m.evictable_leaf(j));
}

/// While something can be evicted there is a leaf to evict.
pub proof fn lemma_something_to_evict(m: CacheModel)
    requires
        m.wf(),
        m.drainable_size() > 0,
    ensures
        m.is_lru_leaf(m.lru_leaf()),
{
    let k = lemma_sum_positive(|i: int| m.drainable_count(i), m.nodes.len());
    assert(m.drains(k));
    let j = lemma_deepest(m, k, m.nodes.len());
    assert(m.node_ok(k));
    assert(m.is_leaf(j)) by {
        assert forall|c: int| #[trigger] m.live(c) && c != ROOT implies m.parent(c) != j by {
            if m.parent(c) == j {
                assert(m.node_ok(c));
                lemma_prefix_trans(m.prefix(k), m.prefix(j), m.prefix(c));
            }
        }
    }
    assert(j != ROOT);
    lemma_lru_exists(m, j);
}

} // verus!
