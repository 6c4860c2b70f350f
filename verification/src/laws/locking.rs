//! Locks: what they protect, and how they add up.

use crate::changes::{
    lemma_lengths, lemma_same_tree_sizes, lemma_same_tree_wf, lemma_touch, same_tree,
};
use crate::laws::contents::{
    law_indices_agree, lemma_insert_nodes, lemma_live_readable, lemma_match_nodes,
};
use crate::matching::{lemma_after_insert, lemma_after_match, lemma_matched_place};
use crate::model::{empty_cache, CacheModel, NodeModel, Token, ROOT};
use crate::sums::{
    lemma_sum_add, lemma_sum_change, lemma_sum_nonneg, lemma_sum_same, lemma_sum_term,
    lemma_sum_zero, sum_below,
};
use crate::trie::{
    lemma_one_continuation, lemma_path_prefix, lemma_prefix_path, lemma_prefix_self,
    lemma_prefix_trans, lemma_step_down,
};
use vstd::prelude::*;

verus! {

/// Whether a lock on node `n` is also one on node `i`.
pub open spec fn locks_too(m: CacheModel, n: int, i: int) -> bool {
    i != ROOT && m.live(i) && m.prefix(i).is_prefix_of(m.prefix(n))
}

/// Locks change nothing but counts.
proof fn lemma_shift(m: CacheModel, n: int, d: int)
    requires
        m.wf(),
        m.live(n),
    ensures
        ({
            let t = m.shift_refs(n, 0, d);
            &&& t.wf()
            &&& same_tree(m, t)
            &&& forall|i: int|
                0 <= i < m.nodes.len() ==> (#[trigger] t.nodes[i]).ref_count == if locks_too(m, n, i) {
                    (m.nodes[i].ref_count + d) as nat
                } else {
                    m.nodes[i].ref_count
                }
        }),
{
    let t = m.shift_refs(n, 0, d);
    assert forall|i: int| 0 <= i < m.nodes.len() implies (#[trigger] t.nodes[i]).ref_count
        == if locks_too(m, n, i) {
        (m.nodes[i].ref_count + d) as nat
    } else {
        m.nodes[i].ref_count
    } by {
        lemma_lengths(m, i);
    }
    assert forall|i: int| 0 < i < t.nodes.len() implies {
        let y = #[trigger] t.nodes[i];
        y.timestamp < t.clock && (!y.alive ==> y.ref_count == 0)
    } by {
        assert(m.node_ok(i));
    }
    lemma_same_tree_wf(m, t);
}

/// A cache with a lock more, or one less, is well-formed.
pub proof fn lemma_locked_wf(m: CacheModel, n: int)
    requires
        m.wf(),
        m.live(n),
    ensures
        m.after_lock(n).wf(),
        m.after_unlock(n).wf(),
{
    lemma_shift(m, n, 1);
    lemma_shift(m, n, -1);
}

/// A lock, or its return, can be had exactly where the node is in the tree, and every node on the
/// way to it, from the top down, has a count of locks that can go up, or down, by one. The root
/// has no such count.
pub proof fn law_when_locks_are_possible(m: CacheModel, n: int)
    requires
        m.wf(),
    ensures
        m.can_lock(n) <==> {
            &&& 0 <= n < m.nodes.len()
            &&& m.nodes[n].alive
            &&& forall|i: int|
                i != 0 && #[trigger] m.on_path(i, n) ==> m.nodes[i].ref_count + 1 <= usize::MAX
        },
        m.can_unlock(n) <==> {
            &&& 0 <= n < m.nodes.len()
            &&& m.nodes[n].alive
            &&& forall|i: int| i != 0 && #[trigger] m.on_path(i, n) ==> m.nodes[i].ref_count >= 1
        },
{
    if m.live(n) {
        assert forall|i: int| i != 0 && #[trigger] m.on_path(i, n) implies m.live(i) && m.prefix(
            i,
        ).is_prefix_of(m.prefix(n)) by {
            lemma_path_prefix(m, i, n);
        }
        assert forall|i: int| #[trigger]
            m.live(i) && i != ROOT && m.prefix(i).is_prefix_of(m.prefix(n)) implies m.on_path(
            i,
            n,
        ) by {
            lemma_prefix_path(m, i, n);
        }
    }
}

/// Step by step from the root: a node that hangs under `p` can be locked exactly where it is in
/// the tree, its own count of locks has room for one more, and `p` can be locked. The same goes
/// for the return of a lock. The root can always be locked.
pub proof fn law_locks_step_by_step(m: CacheModel, n: int, p: int)
    requires
        m.wf(),
        0 <= n < m.nodes.len(),
    ensures
        n == 0 ==> m.can_lock(n) && m.can_unlock(n),
        m.nodes[n].parent == Some(p) ==> {
            &&& m.can_lock(n) <==> m.nodes[n].alive && m.nodes[n].ref_count < usize::MAX
                && m.can_lock(p)
            &&& m.can_unlock(n) <==> m.nodes[n].alive && m.nodes[n].ref_count > 0 && m.can_unlock(
                p,
            )
        },
{
    law_when_locks_are_possible(m, n);
    if n == 0 {
        assert(m.root_ok());
        assert forall|i: int| i != 0 implies !#[trigger] m.on_path(i, n) by {}
    } else if m.nodes[n].parent == Some(p) {
        assert(m.node_ok(n));
        law_when_locks_are_possible(m, p);
        assert forall|i: int| #[trigger] m.on_path(i, n) implies i == n || m.on_path(i, p) by {}
        assert forall|i: int| #[trigger] m.on_path(i, p) implies m.on_path(i, n) by {}
        assert(m.on_path(n, n));
    } else {
        assert(m.node_ok(n));
    }
}

/// A lock counts one up on each node of the tree whose prefix the locked one starts with, but for
/// the root, and its return counts one down there. Nothing else changes.
pub proof fn law_lock_counts(m: CacheModel, n: int, i: int)
    requires
        m.wf(),
        m.live(n),
        0 <= i < m.nodes.len(),
    ensures
        ({
            let x = m.nodes[i];
            let counts = i != 0 && x.alive && x.prefix.is_prefix_of(m.nodes[n].prefix);
            let (up, down) = (m.after_lock(n), m.after_unlock(n));
            &&& up.nodes[i] == NodeModel {
                ref_count: x.ref_count + if counts {
                    1nat
                } else {
                    0
                },
                ..x
            }
            &&& m.can_unlock(n) ==> down.nodes[i] == NodeModel {
                ref_count: (x.ref_count - if counts {
                    1nat
                } else {
                    0
                }) as nat,
                ..x
            }
            &&& m.can_unlock(n) && counts ==> x.ref_count >= 1
            &&& up.nodes.len() == m.nodes.len() && down.nodes.len() == m.nodes.len()
            &&& up.clock == m.clock && down.clock == m.clock
            &&& up.page_size == m.page_size && down.page_size == m.page_size
        }),
{
    lemma_lengths(m, i);
    assert(m.live(i) == m.nodes[i].alive);
}

/// Giving back a lock that was just taken leaves the cache as it was.
pub proof fn law_lock_then_unlock(m: CacheModel, n: int)
    requires
        m.wf(),
        m.live(n),
    ensures
        m.after_lock(n).can_unlock(n),
        m.after_lock(n).after_unlock(n) == m,
{
    let t = m.after_lock(n);
    lemma_shift(m, n, 1);
    assert forall|i: int| #[trigger]
        t.live(i) && i != ROOT && t.prefix(i).is_prefix_of(t.prefix(n)) implies t.nodes[i].ref_count
        > 0 by {
        assert(locks_too(m, n, i));
    }
    let u = t.after_unlock(n);
    assert forall|i: int| 0 <= i < m.nodes.len() implies #[trigger] u.nodes[i] == m.nodes[i] by {
        let y = t.nodes[i];
    }
    assert(u.nodes =~= m.nodes);
}

/// The order of two locks makes no difference.
pub proof fn law_locks_commute(m: CacheModel, a: int, b: int)
    requires
        m.wf(),
        m.live(a),
        m.live(b),
    ensures
        m.after_lock(a).after_lock(b) == m.after_lock(b).after_lock(a),
{
    let x = m.after_lock(a).after_lock(b);
    let y = m.after_lock(b).after_lock(a);
    assert(x.nodes =~= y.nodes);
}

/// The tokens on the way to node `n` in nodes with exactly `refs` locks.
pub open spec fn tokens_with(m: CacheModel, n: int, refs: nat) -> int {
    sum_below(
        |i: int|
            if locks_too(m, n, i) && m.nodes[i].ref_count == refs {
                m.key_len(i)
            } else {
                0
            },
        m.nodes.len(),
    )
}

/// A lock makes the unlocked tokens on the way protected, and changes no other size.
pub proof fn law_lock_sizes(m: CacheModel, n: int)
    requires
        m.wf(),
        m.live(n),
    ensures
        ({
            let t = m.after_lock(n);
            &&& t.evictable_size() == m.evictable_size() - tokens_with(m, n, 0)
            &&& t.protected_size() == m.protected_size() + tokens_with(m, n, 0)
            &&& t.total_size() == m.total_size()
        }),
{
    let t = m.after_lock(n);
    lemma_shift(m, n, 1);
    let moved = |i: int|
        if locks_too(m, n, i) && m.nodes[i].ref_count == 0 {
            m.key_len(i)
        } else {
            0
        };
    lemma_shifted_counts(m, t, n, 1, moved);
}

/// The return of a lock makes evictable what had no other.
pub proof fn law_unlock_sizes(m: CacheModel, n: int)
    requires
        m.wf(),
        m.can_unlock(n),
    ensures
        ({
            let t = m.after_unlock(n);
            &&& t.evictable_size() == m.evictable_size() + tokens_with(m, n, 1)
            &&& t.protected_size() == m.protected_size() - tokens_with(m, n, 1)
            &&& t.total_size() == m.total_size()
        }),
{
    let t = m.after_unlock(n);
    lemma_shift(m, n, -1);
    let moved = |i: int|
        if locks_too(m, n, i) && m.nodes[i].ref_count == 1 {
            m.key_len(i)
        } else {
            0
        };
    lemma_shifted_counts(m, t, n, -1, moved);
}

/// What changes hands when locks are counted up or down by one.
proof fn lemma_shifted_counts(
    m: CacheModel,
    t: CacheModel,
    n: int,
    d: int,
    moved: spec_fn(int) -> int,
)
    requires
        m.wf(),
        same_tree(m, t),
        d == 1 || d == -1,
        d == -1 ==> m.can_unlock(n),
        forall|i: int|
            0 <= i < m.nodes.len() ==> (#[trigger] t.nodes[i]).ref_count == if locks_too(m, n, i) {
                (m.nodes[i].ref_count + d) as nat
            } else {
                m.nodes[i].ref_count
            },
        forall|i: int| #[trigger]
            moved(i) == if locks_too(m, n, i) && m.nodes[i].ref_count == (if d == 1 {
                0nat
            } else {
                1
            }) {
                m.key_len(i)
            } else {
                0
            },
    ensures
        t.evictable_size() == m.evictable_size() - d * sum_below(moved, m.nodes.len()),
        t.protected_size() == m.protected_size() + d * sum_below(moved, m.nodes.len()),
        t.total_size() == m.total_size(),
{
    let len = m.nodes.len();
    let me = |i: int| m.evictable_count(i);
    let te = |i: int| t.evictable_count(i);
    let mp = |i: int| m.protected_count(i);
    let tp = |i: int| t.protected_count(i);
    assert forall|i: int| 0 <= i < len implies {
        &&& (d == 1 ==> #[trigger] me(i) == te(i) + moved(i) && tp(i) == mp(i) + moved(i))
        &&& (d == -1 ==> te(i) == me(i) + moved(i) && mp(i) == tp(i) + moved(i))
    } by {
        let x = m.nodes[i];
        let y = t.nodes[i];
        if i != ROOT {
            assert(m.node_ok(i));
            let px = m.nodes[m.parent(i)];
            assert(t.key_len(i) == m.key_len(i));
            assert(t.live(i) == m.live(i));
        }
    }
    if d == 1 {
        lemma_sum_add(te, moved, me, len);
        assert forall|i: int| 0 <= i < len implies #[trigger] tp(i) == mp(i) + moved(i) by {
            assert(me(i) == te(i) + moved(i));
        }
        lemma_sum_add(mp, moved, tp, len);
    } else {
        assert forall|i: int| 0 <= i < len implies #[trigger] te(i) == me(i) + moved(i) by {
            let x = me(i);
        }
        assert forall|i: int| 0 <= i < len implies #[trigger] mp(i) == tp(i) + moved(i) by {
            let x = me(i);
        }
        lemma_sum_add(me, moved, te, len);
        lemma_sum_add(tp, moved, mp, len);
    }
    lemma_same_tree_sizes(m, t);
}

/// A cache with the same tree holds the same.
pub proof fn lemma_same_tree_contents(a: CacheModel, b: CacheModel, s: Seq<Token>)
    requires
        a.wf(),
        b.wf(),
        same_tree(a, b),
    ensures
        b.holds(s) == a.holds(s),
        a.holds(s) ==> b.indices_for(s) == a.indices_for(s),
{
    if a.holds(s) {
        let i = choose|i: int| #[trigger] a.live(i) && s.is_prefix_of(a.prefix(i));
        let x = a.nodes[i];
        assert(b.live(i));
        law_indices_agree(a, s, i);
        law_indices_agree(b, s, i);
    }
    if b.holds(s) {
        let i = choose|i: int| #[trigger] b.live(i) && s.is_prefix_of(b.prefix(i));
        let x = a.nodes[i];
        assert(a.live(i));
    }
}

/// A lock, or its return, does not change what is cached.
pub proof fn law_locks_keep_contents(m: CacheModel, n: int, s: Seq<Token>)
    requires
        m.wf(),
        m.live(n),
    ensures
        m.after_lock(n).holds(s) == m.holds(s),
        m.holds(s) ==> m.after_lock(n).indices_for(s) == m.indices_for(s),
        m.after_unlock(n).holds(s) == m.holds(s),
        m.holds(s) ==> m.after_unlock(n).indices_for(s) == m.indices_for(s),
{
    lemma_shift(m, n, 1);
    lemma_same_tree_contents(m, m.after_lock(n), s);
    lemma_shift(m, n, -1);
    lemma_same_tree_contents(m, m.after_unlock(n), s);
}

/// A lock, or its return, does not change what a handle to a node of the tree stands for.
pub proof fn law_locks_keep_handles(m: CacheModel, n: int, k: int, len: int)
    requires
        m.wf(),
        m.live(n),
        m.live(k),
    ensures
        m.after_lock(n).live(k),
        m.after_lock(n).prefix(k) == m.prefix(k),
        m.after_lock(n).readable(k, len),
        m.after_lock(n).indices_of(k, len) == m.indices_of(k, len),
        m.after_unlock(n).live(k),
        m.after_unlock(n).prefix(k) == m.prefix(k),
        m.after_unlock(n).readable(k, len),
        m.after_unlock(n).indices_of(k, len) == m.indices_of(k, len),
{
    let x = m.nodes[k];
    lemma_shift(m, n, 1);
    lemma_live_readable(m.after_lock(n), k, len);
    lemma_shift(m, n, -1);
    lemma_live_readable(m.after_unlock(n), k, len);
}

/// The locks of a node that hangs directly under node `k`, as `child_locks` counts them.
spec fn locks_under(m: CacheModel, k: int) -> spec_fn(int) -> int {
    |i: int|
        if i != ROOT && m.live(i) && m.parent(i) == k {
            m.nodes[i].ref_count as int
        } else {
            0
        }
}

/// The locks below node `k` when those on the way to `n` are counted up or down.
proof fn lemma_shift_child_locks(m: CacheModel, t: CacheModel, n: int, d: int, k: int)
    requires
        m.wf(),
        m.live(n),
        m.live(k),
        k != ROOT,
        same_tree(m, t),
        d == 1 || d == -1,
        d == -1 ==> m.can_unlock(n),
        forall|i: int|
            0 <= i < m.nodes.len() ==> (#[trigger] t.nodes[i]).ref_count == if locks_too(m, n, i) {
                (m.nodes[i].ref_count + d) as nat
            } else {
                m.nodes[i].ref_count
            },
    ensures
        t.child_locks(k) == m.child_locks(k) + if locks_too(m, n, k) && k != n {
            d
        } else {
            0
        },
{
    let f = locks_under(m, k);
    let g = locks_under(t, k);
    let len = m.nodes.len();
    if locks_too(m, n, k) && k != n {
        lemma_prefix_path(m, k, n);
        let a = lemma_step_down(m, k, n);
        lemma_path_prefix(m, a, n);
        assert(locks_too(m, n, a));
        assert forall|i: int| 0 <= i < len && i != a implies #[trigger] f(i) == g(i) by {
            let x = m.nodes[i];
            let y = t.nodes[i];
            if locks_too(m, n, i) && m.parent(i) == k {
                lemma_one_continuation(m, i, a, m.prefix(n));
            }
        }
        lemma_sum_change(f, g, len, a);
        let x = m.nodes[a];
        let y = t.nodes[a];
    } else {
        assert forall|i: int| 0 <= i < len implies #[trigger] f(i) == g(i) by {
            let x = m.nodes[i];
            let y = t.nodes[i];
            if locks_too(m, n, i) && m.parent(i) == k {
                assert(m.node_ok(i));
                lemma_prefix_trans(m.prefix(k), m.prefix(i), m.prefix(n));
            }
        }
        lemma_sum_same(f, g, len);
    }
}

/// A lock on node `n` is one of node `n` itself, and of no other.
pub proof fn law_lock_is_own(m: CacheModel, n: int, k: int)
    requires
        m.wf(),
        m.live(n),
        m.live(k),
        k != ROOT,
    ensures
        m.after_lock(n).own_locks(k) == m.own_locks(k) + if k == n {
            1int
        } else {
            0
        },
{
    lemma_shift(m, n, 1);
    lemma_shift_child_locks(m, m.after_lock(n), n, 1, k);
    lemma_prefix_self(m.prefix(n));
    let y = m.after_lock(n).nodes[k];
}

/// The return of a lock on node `n` takes one from node `n` itself, and from no other.
pub proof fn law_unlock_is_own(m: CacheModel, n: int, k: int)
    requires
        m.wf(),
        m.can_unlock(n),
        m.live(k),
        k != ROOT,
    ensures
        m.after_unlock(n).own_locks(k) == m.own_locks(k) - if k == n {
            1int
        } else {
            0
        },
{
    lemma_shift(m, n, -1);
    lemma_shift_child_locks(m, m.after_unlock(n), n, -1, k);
    lemma_prefix_self(m.prefix(n));
    let y = m.after_unlock(n).nodes[k];
}

/// A lock keeps the locks in balance.
pub proof fn law_lock_keeps_balance(m: CacheModel, n: int)
    requires
        m.wf(),
        m.balanced(),
        m.live(n),
    ensures
        m.after_lock(n).balanced(),
{
    let t = m.after_lock(n);
    assert forall|k: int| k != ROOT && #[trigger] t.live(k) implies t.own_locks(k) >= 0 by {
        assert(m.live(k));
        law_lock_is_own(m, n, k);
    }
}

/// The return of a lock that was taken on node `n` itself keeps the locks in balance.
pub proof fn law_unlock_keeps_balance(m: CacheModel, n: int)
    requires
        m.wf(),
        m.balanced(),
        m.live(n),
        n == ROOT || m.own_locks(n) >= 1,
    ensures
        m.can_unlock(n),
        m.after_unlock(n).balanced(),
{
    law_own_lock_can_be_returned(m, n);
    let t = m.after_unlock(n);
    assert forall|k: int| k != ROOT && #[trigger] t.live(k) implies t.own_locks(k) >= 0 by {
        assert(m.live(k));
        law_unlock_is_own(m, n, k);
    }
}

/// Where locks are in balance, no node has more than those above it.
proof fn lemma_locks_above(m: CacheModel, a: int, n: int)
    requires
        m.wf(),
        m.balanced(),
        m.live(n),
        a != ROOT,
        m.on_path(a, n),
    ensures
        m.live(a),
        m.nodes[a].ref_count >= m.nodes[n].ref_count,
    decreases m.prefix(n).len(),
{
    if a != n {
        assert(m.node_ok(n));
        let p = m.parent(n);
        lemma_path_prefix(m, a, p);
        if p == ROOT {
            assert(m.prefix(a).len() == 0);
            lemma_lengths(m, a);
        } else {
            lemma_locks_above(m, a, p);
            let f = locks_under(m, p);
            lemma_sum_term(f, m.nodes.len(), n);
            assert(m.live(p));
            assert(m.own_locks(p) >= 0);
        }
    }
}

/// A lock that was taken on node `n` itself can be given back, where locks are in balance.
pub proof fn law_own_lock_can_be_returned(m: CacheModel, n: int)
    requires
        m.wf(),
        m.balanced(),
        m.live(n),
        n == ROOT || m.own_locks(n) >= 1,
    ensures
        m.can_unlock(n),
{
    assert forall|i: int| #[trigger]
        m.live(i) && i != ROOT && m.prefix(i).is_prefix_of(m.prefix(n)) implies m.nodes[i].ref_count
        > 0 by {
        lemma_lengths(m, i);
        lemma_prefix_path(m, i, n);
        lemma_locks_above(m, i, n);
        let f = locks_under(m, n);
        lemma_sum_nonneg(f, m.nodes.len());
    }
}

/// Where locks are in balance, eviction can get at all that no lock protects.
pub proof fn law_balanced_drains(m: CacheModel)
    requires
        m.wf(),
        m.balanced(),
    ensures
        m.drainable_size() == m.evictable_size(),
{
    let f = |i: int| m.drainable_count(i);
    let g = |i: int| m.evictable_count(i);
    assert forall|i: int| 0 <= i < m.nodes.len() implies #[trigger] f(i) == g(i) by {
        if i != ROOT && m.live(i) {
            if m.nodes[i].ref_count == 0 {
                assert forall|j: int| #[trigger]
                    m.live(j) && m.prefix(i).is_prefix_of(m.prefix(j)) implies m.nodes[j].ref_count
                    == 0 by {
                    lemma_prefix_path(m, i, j);
                    lemma_locks_above(m, i, j);
                }
                assert(m.drains(i));
            } else {
                lemma_prefix_self(m.prefix(i));
                assert(!m.drains(i));
            }
        }
    }
    lemma_sum_same(f, g, m.nodes.len());
}

/// An empty cache has its locks in balance.
pub proof fn law_empty_is_balanced(page_size: nat)
    ensures
        empty_cache(page_size).balanced(),
{
    let m = empty_cache(page_size);
    assert forall|n: int| n != ROOT && #[trigger] m.live(n) implies m.own_locks(n) >= 0 by {}
}

/// A match keeps each node's own locks, and makes no node that has some.
pub proof fn law_match_keeps_own_locks(m: CacheModel, input: Seq<Token>, k: int)
    requires
        m.wf(),
        k != ROOT,
        m.after_match(input).live(k),
    ensures
        ({
            let t = m.after_match(input);
            t.own_locks(k) == if k < m.nodes.len() {
                m.own_locks(k)
            } else {
                0
            }
        }),
{
    let t = m.after_match(input);
    let s = m.matched(input);
    let u = m.touch(s);
    lemma_matched_place(m, input);
    lemma_touch(m, s);
    if k < m.nodes.len() {
        let f = locks_under(m, k);
        let g = locks_under(u, k);
        assert forall|i: int| 0 <= i < m.nodes.len() implies #[trigger] f(i) == g(i) by {
            let x = m.nodes[i];
        }
        lemma_sum_same(f, g, m.nodes.len());
        let x = m.nodes[k];
        assert(u.own_locks(k) == m.own_locks(k));
    }
    if !m.has_end(s) {
        let x = m.nodes[m.node_over(s)];
        let px = m.nodes[m.parent(m.node_over(s))];
        lemma_split_own_locks(u, m.node_over(s), s.len() as int, m.clock, k);
    }
}

/// A division keeps each node's own locks, and the node that it makes has none.
proof fn lemma_split_own_locks(m: CacheModel, n: int, l: int, timestamp: nat, k: int)
    requires
        m.wf(),
        m.live(n),
        n != ROOT,
        k != ROOT,
        m.split(n, l, timestamp).live(k),
    ensures
        m.split(n, l, timestamp).own_locks(k) == if k < m.nodes.len() {
            m.own_locks(k)
        } else {
            0
        },
{
    let t = m.split(n, l, timestamp);
    let f = locks_under(m, k);
    let g = locks_under(t, k);
    let len = m.nodes.len();
    let p = m.parent(n);
    assert(m.node_ok(n));
    assert forall|i: int| 0 <= i < len && i != n && i != ROOT implies #[trigger] f(i) == g(i) by {
        assert(t.nodes[i] == m.nodes[i]);
    }
    assert(f(0) == g(0));
    assert(sum_below(g, len + 1) == sum_below(g, len) + g(len as int));
    if k == len {
        let zero = |i: int| 0int;
        assert forall|i: int| 0 <= i < len && i != n implies #[trigger] zero(i) == g(i) by {
            if i != ROOT {
                assert(m.node_ok(i));
                assert(t.nodes[i] == m.nodes[i]);
            }
        }
        lemma_sum_change(zero, g, len, n);
        lemma_sum_zero(zero, len);
    } else {
        lemma_sum_change(f, g, len, n);
    }
}

/// A match keeps the locks in balance.
pub proof fn law_match_keeps_balance(m: CacheModel, input: Seq<Token>)
    requires
        m.wf(),
        m.balanced(),
    ensures
        m.after_match(input).balanced(),
{
    let t = m.after_match(input);
    lemma_match_nodes(m, input);
    assert forall|k: int| k != ROOT && #[trigger] t.live(k) implies t.own_locks(k) >= 0 by {
        law_match_keeps_own_locks(m, input, k);
        if k < m.nodes.len() {
            let x = m.nodes[k];
            assert(m.live(k));
        }
    }
}

/// An insertion keeps each node's own locks, and makes no node that has some.
pub proof fn law_insert_keeps_own_locks(
    m: CacheModel,
    input: Seq<Token>,
    indices: Seq<Token>,
    k: int,
)
    requires
        m.wf(),
        input.len() == indices.len(),
        k != ROOT,
        m.after_insert(input, indices).live(k),
    ensures
        ({
            let t = m.after_insert(input, indices);
            t.own_locks(k) == if k < m.nodes.len() {
                m.own_locks(k)
            } else {
                0
            }
        }),
{
    let s = input.take(m.insert_len(input.len()) as int);
    let u = m.after_match(s);
    let t = m.after_insert(input, indices);
    lemma_after_match(m, s);
    lemma_after_insert(m, input, indices);
    lemma_match_nodes(m, s);
    let len = u.nodes.len();
    if k < len {
        assert(t.nodes[k] == u.nodes[k]);
        assert(u.live(k));
        law_match_keeps_own_locks(m, s, k);
    }
    if t.nodes.len() > len {
        let f = locks_under(u, k);
        let g = locks_under(t, k);
        assert(sum_below(g, len + 1) == sum_below(g, len) + g(len as int));
        assert(g(len as int) == 0);
        if k < len {
            assert forall|i: int| 0 <= i < len implies #[trigger] f(i) == g(i) by {
                assert(t.nodes[i] == u.nodes[i]);
            }
            lemma_sum_same(f, g, len);
        } else {
            assert forall|i: int| 0 <= i < len implies #[trigger] g(i) == 0 by {
                assert(t.nodes[i] == u.nodes[i]);
                if i != ROOT {
                    assert(u.node_ok(i));
                }
            }
            lemma_sum_zero(g, len);
        }
    }
}

/// An insertion keeps the locks in balance.
pub proof fn law_insert_keeps_balance(m: CacheModel, input: Seq<Token>, indices: Seq<Token>)
    requires
        m.wf(),
        m.balanced(),
        input.len() == indices.len(),
    ensures
        m.after_insert(input, indices).balanced(),
{
    let t = m.after_insert(input, indices);
    lemma_insert_nodes(m, input, indices);
    assert forall|k: int| k != ROOT && #[trigger] t.live(k) implies t.own_locks(k) >= 0 by {
        law_insert_keeps_own_locks(m, input, indices, k);
        if k < m.nodes.len() {
            let x = m.nodes[k];
            assert(m.live(k));
        }
    }
}

} // verus!
