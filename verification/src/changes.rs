//! Each change of the tree keeps it well-formed, and moves the sizes as stated here.

use crate::model::{CacheModel, NodeModel, Token, ROOT};
use crate::sums::{lemma_sum_add, lemma_sum_change, lemma_sum_nonneg, lemma_sum_same, sum_below};
use crate::trie::{
    lemma_above, lemma_page_fits, lemma_prefix_pair, lemma_prefix_self, lemma_prefix_trans,
    lemma_take_is_prefix,
};
use vstd::prelude::*;

verus! {

/// Whether two caches have the same nodes in the same places.
pub open spec fn same_tree(a: CacheModel, b: CacheModel) -> bool {
    &&& a.page_size == b.page_size
    &&& a.nodes.len() == b.nodes.len()
    &&& forall|i: int|
        0 <= i < a.nodes.len() ==> {
            let x = #[trigger] a.nodes[i];
            let y = b.nodes[i];
            &&& x.prefix == y.prefix
            &&& x.indices == y.indices
            &&& x.parent == y.parent
            &&& x.alive == y.alive
        }
}

/// Whether two caches have the same locks on the same nodes.
pub open spec fn same_refs(a: CacheModel, b: CacheModel) -> bool {
    &&& a.nodes.len() == b.nodes.len()
    &&& forall|i: int|
        0 <= i < a.nodes.len() ==> (#[trigger] a.nodes[i]).ref_count == b.nodes[i].ref_count
}

/// A cache with the same tree as a well-formed one, and timestamps and locks in order, is
/// well-formed.
pub proof fn lemma_same_tree_wf(a: CacheModel, b: CacheModel)
    requires
        a.wf(),
        same_tree(a, b),
        b.clock > 0,
        b.nodes[0] == a.nodes[0],
        forall|i: int|
            0 < i < b.nodes.len() ==> {
                let y = #[trigger] b.nodes[i];
                y.timestamp < b.clock && (!y.alive ==> y.ref_count == 0)
            },
    ensures
        b.wf(),
{
    assert forall|i: int| 0 < i < b.nodes.len() implies #[trigger] b.node_ok(i) by {
        assert(a.node_ok(i));
        let y = b.nodes[i];
        let x = a.nodes[i];
        let q = b.nodes[b.parent(i)];
        let p = a.nodes[a.parent(i)];
    }
    assert forall|i: int, j: int| !#[trigger] b.clash(i, j) by {
        if b.clash(i, j) {
            assert(a.node_ok(i));
            assert(a.node_ok(j));
            let x = a.nodes[i];
            let y = a.nodes[j];
            let p = a.nodes[a.parent(i)];
            assert(a.clash(i, j));
        }
    }
}

/// The total follows from the tree, and the rest from the tree and the locks.
pub proof fn lemma_same_tree_sizes(a: CacheModel, b: CacheModel)
    requires
        a.wf(),
        same_tree(a, b),
    ensures
        a.total_size() == b.total_size(),
        same_refs(a, b) ==> a.sizes() == b.sizes(),
{
    assert forall|i: int| 0 <= i < a.nodes.len() implies a.token_count(i) == b.token_count(i) by {
        let x = a.nodes[i];
        if i != ROOT {
            assert(a.node_ok(i));
            let p = a.nodes[a.parent(i)];
        }
    }
    let n = a.nodes.len();
    lemma_sum_same(|i: int| a.token_count(i), |i: int| b.token_count(i), n);
    if same_refs(a, b) {
        assert forall|i: int| 0 <= i < n implies a.evictable_count(i) == b.evictable_count(i)
            && a.protected_count(i) == b.protected_count(i) by {
            let x = a.nodes[i];
        }
        lemma_sum_same(|i: int| a.evictable_count(i), |i: int| b.evictable_count(i), n);
        lemma_sum_same(|i: int| a.protected_count(i), |i: int| b.protected_count(i), n);
    }
}

/// The evictable and the protected tokens are all tokens.
pub proof fn lemma_sizes_add_up(m: CacheModel)
    requires
        m.wf(),
    ensures
        m.evictable_size() + m.protected_size() == m.total_size(),
        m.evictable_size() >= 0,
        m.protected_size() >= 0,
{
    let e = |i: int| m.evictable_count(i);
    let p = |i: int| m.protected_count(i);
    let t = |i: int| m.token_count(i);
    assert forall|i: int| 0 <= i < m.nodes.len() implies m.token_count(i) >= 0 by {
        if i != ROOT {
            assert(m.node_ok(i));
        }
    }
    lemma_sum_add(e, p, t, m.nodes.len());
    lemma_sum_nonneg(e, m.nodes.len());
    lemma_sum_nonneg(p, m.nodes.len());
}

/// Marking nodes as used.
pub proof fn lemma_touch(m: CacheModel, s: Seq<Token>)
    requires
        m.wf(),
    ensures
        m.touch(s).wf(),
        same_tree(m, m.touch(s)),
        same_refs(m, m.touch(s)),
        m.touch(s).sizes() == m.sizes(),
        m.touch(s).total_size() == m.total_size(),
{
    let t = m.touch(s);
    assert forall|i: int| 0 < i < t.nodes.len() implies {
        let y = #[trigger] t.nodes[i];
        y.timestamp < t.clock && (!y.alive ==> y.ref_count == 0)
    } by {
        assert(m.node_ok(i));
    }
    lemma_same_tree_wf(m, t);
    lemma_same_tree_sizes(m, t);
}

/// Going from `p` on to `c`, which hangs under it, marks one node more.
pub proof fn lemma_touch_step(m: CacheModel, c: int)
    requires
        m.wf(),
        m.live(c),
        c != ROOT,
    ensures
        ({
            let before = m.touch(m.prefix(m.parent(c)));
            let after = m.touch(m.prefix(c));
            &&& after.clock == before.clock
            &&& after.nodes == before.nodes.update(
                c,
                NodeModel { timestamp: m.clock, ..before.nodes[c] },
            )
        }),
{
    assert(m.node_ok(c));
    let p = m.parent(c);
    let before = m.touch(m.prefix(p));
    let after = m.touch(m.prefix(c));
    lemma_prefix_self(m.prefix(c));
    assert forall|i: int| 0 <= i < m.nodes.len() && i != c implies after.nodes[i]
        == before.nodes[i] by {
        if i != ROOT && m.live(i) {
            if m.prefix(i).is_prefix_of(m.prefix(c)) {
                lemma_above(m, i, c);
            }
            if m.prefix(i).is_prefix_of(m.prefix(p)) {
                lemma_prefix_trans(m.prefix(i), m.prefix(p), m.prefix(c));
            }
        }
    }
    assert(after.nodes =~= before.nodes.update(
        c,
        NodeModel { timestamp: m.clock, ..before.nodes[c] },
    ));
}

/// A walk that ends in the middle of `c` marks the nodes up to its parent.
pub proof fn lemma_touch_edge(m: CacheModel, c: int, s: Seq<Token>)
    requires
        m.wf(),
        m.runs_over(c, s),
    ensures
        m.touch(s) == m.touch(m.prefix(m.parent(c))),
{
    assert(c != ROOT);
    assert(m.node_ok(c));
    let p = m.parent(c);
    let a = m.touch(s);
    let b = m.touch(m.prefix(p));
    assert forall|i: int| 0 <= i < m.nodes.len() implies a.nodes[i] == b.nodes[i] by {
        if i != ROOT && m.live(i) {
            if m.prefix(i).is_prefix_of(s) {
                lemma_prefix_trans(m.prefix(i), s, m.prefix(c));
                lemma_above(m, i, c);
            }
            if m.prefix(i).is_prefix_of(m.prefix(p)) {
                lemma_prefix_pair(m.prefix(p), s, m.prefix(c));
                lemma_prefix_trans(m.prefix(i), m.prefix(p), s);
            }
        }
    }
    assert(a.nodes =~= b.nodes);
}

/// A walk that has gone nowhere marks nothing.
pub proof fn lemma_touch_nothing(m: CacheModel)
    requires
        m.wf(),
    ensures
        m.touch(m.prefix(ROOT as int)) == (CacheModel { clock: m.clock + 1, ..m }),
{
    let t = m.touch(m.prefix(ROOT as int));
    assert forall|i: int| 0 <= i < m.nodes.len() implies t.nodes[i] == m.nodes[i] by {
        if i != ROOT {
            assert(m.node_ok(i));
        }
    }
    assert(t.nodes =~= m.nodes);
}

/// Dividing a node.
pub proof fn lemma_split(m: CacheModel, n: int, l: int, timestamp: nat)
    requires
        m.wf(),
        m.live(n),
        n != ROOT,
        m.start(n) < l < m.prefix(n).len(),
        l % (m.page_size as int) == 0,
        timestamp < m.clock,
    ensures
        m.split(n, l, timestamp).wf(),
        m.split(n, l, timestamp).sizes() == m.sizes(),
        m.split(n, l, timestamp).total_size() == m.total_size(),
{
    let t = m.split(n, l, timestamp);
    let f = m.nodes.len() as int;
    assert(m.node_ok(n));
    let p = m.parent(n);
    lemma_take_is_prefix(m.prefix(n), l);
    lemma_page_fits(m, n);
    assert(t.nodes[f].prefix == m.prefix(n).take(l));
    assert forall|i: int| 0 < i < t.nodes.len() implies #[trigger] t.node_ok(i) by {
        if i == f {
            assert(t.parent(i) == p);
            lemma_lengths(m, p);
            lemma_prefix_pair(m.prefix(p), m.prefix(n).take(l), m.prefix(n));
            assert(m.nodes[p].indices =~= t.nodes[f].indices.subrange(
                0,
                m.nodes[p].indices.len() as int,
            )) by {
                assert forall|k: int| 0 <= k < m.nodes[p].indices.len() implies
                    m.nodes[p].indices[k] == t.nodes[f].indices[k] by {
                    assert(m.nodes[p].indices[k] == m.nodes[n].indices.subrange(
                        0,
                        m.nodes[p].indices.len() as int,
                    )[k]);
                }
            }
        } else if i == n {
            assert(t.parent(i) == f);
            assert(t.nodes[f].indices =~= m.nodes[n].indices.subrange(0, l));
        } else {
            assert(m.node_ok(i));
            assert(t.nodes[i] == m.nodes[i]);
            assert(t.nodes[m.parent(i)].prefix == m.nodes[m.parent(i)].prefix);
        }
    }
    assert forall|i: int, j: int| !#[trigger] t.clash(i, j) by {
        if t.clash(i, j) {
            lemma_split_no_clash(m, n, l, timestamp, i, j);
        }
    }
    lemma_split_sizes(m, n, l, timestamp);
}

/// The lengths of what a node holds.
pub proof fn lemma_lengths(m: CacheModel, i: int)
    requires
        m.wf(),
        0 <= i < m.nodes.len(),
    ensures
        m.nodes[i].indices.len() == m.prefix(i).len(),
        m.prefix(i).len() % m.page_size == 0,
        0 <= m.start(i) <= m.prefix(i).len(),
        i != ROOT ==> m.start(i) < m.prefix(i).len(),
{
    if i != ROOT {
        assert(m.node_ok(i));
    } else {
        vstd::arithmetic::div_mod::lemma_small_mod(0, m.page_size);
    }
}

proof fn lemma_split_no_clash(m: CacheModel, n: int, l: int, timestamp: nat, i: int, j: int)
    requires
        m.wf(),
        m.live(n),
        n != ROOT,
        m.start(n) < l < m.prefix(n).len(),
        l % (m.page_size as int) == 0,
    ensures
        !m.split(n, l, timestamp).clash(i, j),
{
    let t = m.split(n, l, timestamp);
    let f = m.nodes.len() as int;
    assert(m.node_ok(n));
    let p = m.parent(n);
    if t.clash(i, j) {
        // Only `n` hangs under the new node.
        if i != f {
            assert(m.node_ok(i));
        }
        if j != f {
            assert(m.node_ok(j));
        }
        assert(i != n && j != n);
        lemma_page_fits(m, n);
        crate::align::lemma_aligned_gap(m.start(n) as nat, l as nat, m.page_size);
        assert(t.page(f) =~= m.page(n));
        if i == f {
            assert(t.page(j) =~= m.page(j));
            assert(m.clash(n, j));
        } else if j == f {
            assert(t.page(i) =~= m.page(i));
            assert(m.clash(i, n));
        } else {
            assert(t.page(i) =~= m.page(i));
            assert(t.page(j) =~= m.page(j));
            assert(m.clash(i, j));
        }
    }
}

/// Tokens that leave one node and enter the new one leave every sum as it is.
proof fn lemma_split_sum(
    m: CacheModel,
    n: int,
    f: spec_fn(int) -> int,
    g: spec_fn(int) -> int,
)
    requires
        0 <= n < m.nodes.len(),
        forall|i: int| 0 <= i < m.nodes.len() && i != n ==> #[trigger] f(i) == g(i),
        g(n) + g(m.nodes.len() as int) == f(n),
    ensures
        sum_below(g, m.nodes.len() + 1) == sum_below(f, m.nodes.len()),
{
    lemma_sum_change(f, g, m.nodes.len(), n);
}

proof fn lemma_split_sizes(m: CacheModel, n: int, l: int, timestamp: nat)
    requires
        m.wf(),
        m.live(n),
        n != ROOT,
        m.start(n) < l < m.prefix(n).len(),
    ensures
        m.split(n, l, timestamp).sizes() == m.sizes(),
        m.split(n, l, timestamp).total_size() == m.total_size(),
{
    let t = m.split(n, l, timestamp);
    let f = m.nodes.len() as int;
    assert(m.node_ok(n));
    assert forall|i: int| 0 <= i < m.nodes.len() && i != n implies t.token_count(i)
        == m.token_count(i) by {
        if i != ROOT {
            assert(m.node_ok(i));
        }
    }
    assert(t.token_count(n) + t.token_count(f) == m.token_count(n));
    lemma_split_sum(m, n, |i: int| m.token_count(i), |i: int| t.token_count(i));
    lemma_split_sum(m, n, |i: int| m.evictable_count(i), |i: int| t.evictable_count(i));
    lemma_split_sum(m, n, |i: int| m.protected_count(i), |i: int| t.protected_count(i));
}

/// Hanging up a new leaf.
pub proof fn lemma_add_leaf(m: CacheModel, n: int, s: Seq<Token>, tail: Seq<Token>)
    requires
        m.wf(),
        m.live(n),
        m.prefix(n).is_prefix_of(s),
        m.prefix(n).len() < s.len(),
        s.len() % m.page_size == 0,
        tail.len() == s.len() - m.prefix(n).len(),
        forall|c: int| #[trigger]
            m.live(c) && c != ROOT && m.parent(c) == n ==> m.page(c) != s.subrange(
                m.prefix(n).len() as int,
                (m.prefix(n).len() + m.page_size) as int,
            ),
    ensures
        ({
            let t = m.add_leaf(n, s, tail);
            &&& t.wf()
            &&& t.total_size() == m.total_size() + tail.len()
            &&& t.evictable_size() == m.evictable_size() + tail.len()
            &&& t.protected_size() == m.protected_size()
        }),
{
    let t = m.add_leaf(n, s, tail);
    let f = m.nodes.len() as int;
    lemma_lengths(m, n);
    assert forall|i: int| 0 < i < t.nodes.len() implies #[trigger] t.node_ok(i) by {
        if i == f {
            assert(m.nodes[n].indices =~= t.nodes[f].indices.subrange(
                0,
                m.nodes[n].indices.len() as int,
            ));
        } else {
            assert(m.node_ok(i));
        }
    }
    assert forall|i: int, j: int| !#[trigger] t.clash(i, j) by {
        if t.clash(i, j) {
            if i != f {
                assert(m.node_ok(i));
                assert(t.page(i) =~= m.page(i));
                assert(m.live(i));
            }
            if j != f {
                assert(m.node_ok(j));
                assert(t.page(j) =~= m.page(j));
                assert(m.live(j));
            }
            if i != f && j != f {
                assert(m.clash(i, j));
            }
        }
    }
    assert forall|i: int| 0 <= i < m.nodes.len() implies t.token_count(i) == m.token_count(i) by {
        if i != ROOT {
            assert(m.node_ok(i));
        }
    }
    lemma_sum_same(|i: int| m.token_count(i), |i: int| t.token_count(i), m.nodes.len());
    lemma_sum_same(|i: int| m.evictable_count(i), |i: int| t.evictable_count(i), m.nodes.len());
    lemma_sum_same(|i: int| m.protected_count(i), |i: int| t.protected_count(i), m.nodes.len());
}

/// Taking out an unlocked leaf.
pub proof fn lemma_remove(m: CacheModel, i: int)
    requires
        m.wf(),
        m.evictable_leaf(i),
    ensures
        ({
            let t = m.remove(i);
            &&& t.wf()
            &&& t.total_size() == m.total_size() - m.key_len(i)
            &&& t.evictable_size() == m.evictable_size() - m.key_len(i)
            &&& t.protected_size() == m.protected_size()
        }),
{
    let t = m.remove(i);
    assert forall|k: int| 0 < k < t.nodes.len() implies #[trigger] t.node_ok(k) by {
        assert(m.node_ok(k));
        if m.nodes[k].alive {
            assert(m.live(k));
        }
    }
    assert forall|a: int, b: int| !#[trigger] t.clash(a, b) by {
        if t.clash(a, b) {
            assert(m.node_ok(a));
            assert(m.node_ok(b));
            assert(t.page(a) =~= m.page(a));
            assert(t.page(b) =~= m.page(b));
            assert(m.clash(a, b));
        }
    }
    assert forall|k: int| 0 <= k < m.nodes.len() && k != i implies t.token_count(k)
        == m.token_count(k) by {
        if k != ROOT {
            assert(m.node_ok(k));
        }
    }
    let n = m.nodes.len();
    lemma_sum_change(|k: int| m.token_count(k), |k: int| t.token_count(k), n, i);
    lemma_sum_change(|k: int| m.evictable_count(k), |k: int| t.evictable_count(k), n, i);
    lemma_sum_change(|k: int| m.protected_count(k), |k: int| t.protected_count(k), n, i);
}

/// A change of the locks of one node.
pub proof fn lemma_change_refs(m: CacheModel, n: int, refs: nat)
    requires
        m.wf(),
        m.live(n),
        n != ROOT,
    ensures
        ({
            let t = CacheModel {
                nodes: m.nodes.update(n, NodeModel { ref_count: refs, ..m.nodes[n] }),
                ..m
            };
            let was = m.nodes[n].ref_count;
            let d = m.key_len(n);
            &&& t.wf()
            &&& t.total_size() == m.total_size()
            &&& t.evictable_size() == m.evictable_size() + (if refs == 0 {
                d
            } else {
                0
            }) - (if was == 0 {
                d
            } else {
                0
            })
            &&& t.protected_size() == m.protected_size() + (if refs > 0 {
                d
            } else {
                0
            }) - (if was > 0 {
                d
            } else {
                0
            })
        }),
{
    let t = CacheModel {
        nodes: m.nodes.update(n, NodeModel { ref_count: refs, ..m.nodes[n] }),
        ..m
    };
    assert(same_tree(m, t));
    assert forall|i: int| 0 < i < t.nodes.len() implies {
        let y = #[trigger] t.nodes[i];
        y.timestamp < t.clock && (!y.alive ==> y.ref_count == 0)
    } by {
        assert(m.node_ok(i));
    }
    lemma_same_tree_wf(m, t);
    lemma_same_tree_sizes(m, t);
    assert forall|i: int| 0 <= i < m.nodes.len() implies m.token_count(i) == t.token_count(i) by {
        if i != ROOT {
            assert(m.node_ok(i));
        }
    }
    let k = m.nodes.len();
    lemma_sum_change(|i: int| m.evictable_count(i), |i: int| t.evictable_count(i), k, n);
    lemma_sum_change(|i: int| m.protected_count(i), |i: int| t.protected_count(i), k, n);
}

} // verus!
