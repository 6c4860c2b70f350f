//! Eviction: what goes, what stays, and in what order.

use crate::changes::{lemma_lengths, lemma_remove, lemma_sizes_add_up};
use crate::draining::{
    lemma_drainable_evictable, lemma_leaf_alone, lemma_lru_exists, lemma_remove_drains,
    lemma_something_to_evict,
};
use crate::laws::contents::{
    law_indices_agree, law_indices_of_prefix, law_whole_pages, lemma_live_readable,
};
use crate::laws::locking::{
    law_balanced_drains, law_lock_then_unlock, law_locks_keep_contents, law_locks_keep_handles,
    law_own_lock_can_be_returned, lemma_locked_wf,
};
use crate::lookup::lemma_matched_len;
use crate::model::{CacheModel, NodeModel, Token, ROOT};
use crate::sums::lemma_sum_change;
use crate::trie::{lemma_prefix_self, lemma_take_is_prefix};
use vstd::multiset::Multiset;
use vstd::prelude::*;
use vstd::seq_lib::lemma_multiset_commutative;

verus! {

/// Whether `b` is `a` with some nodes taken out of the tree.
pub open spec fn taken_out(a: CacheModel, b: CacheModel) -> bool {
    &&& b.page_size == a.page_size
    &&& b.clock == a.clock
    &&& b.nodes.len() == a.nodes.len()
    &&& forall|i: int|
        0 <= i < a.nodes.len() ==> {
            let x = #[trigger] a.nodes[i];
            let y = b.nodes[i];
            &&& y == NodeModel { alive: y.alive, ..x }
            &&& y.alive ==> x.alive
        }
}

/// Eviction takes nodes out of the tree, and changes nothing else. It takes none that is
/// locked.
pub proof fn law_evict_takes_unlocked(m: CacheModel, size: nat, i: int)
    requires
        m.wf(),
        0 <= i < m.nodes.len(),
    ensures
        m.evict(size).0.wf(),
        taken_out(m, m.evict(size).0),
        m.live(i) && m.nodes[i].ref_count > 0 ==> m.evict(size).0.live(i),
    decreases size,
{
    let x = m.lru_leaf();
    let len = m.key_len(x);
    if !(size == 0 || !m.is_lru_leaf(x) || len <= 0) {
        let rest = if len < size {
            (size - len) as nat
        } else {
            0
        };
        let next = m.remove(x);
        lemma_remove(m, x);
        law_evict_takes_unlocked(next, rest, i);
        let t = next.evict(rest).0;
        assert forall|j: int| 0 <= j < m.nodes.len() implies {
            let a = #[trigger] m.nodes[j];
            let b = t.nodes[j];
            b == (NodeModel { alive: b.alive, ..a }) && (b.alive ==> a.alive)
        } by {
            let c = next.nodes[j];
        }
    }
}

/// Eviction takes as many tokens from the evictable size, and from the total, as it gives
/// indices. The protected size stays.
pub proof fn law_evict_sizes(m: CacheModel, size: nat)
    requires
        m.wf(),
    ensures
        ({
            let (t, out) = m.evict(size);
            &&& t.evictable_size() == m.evictable_size() - out.len()
            &&& t.protected_size() == m.protected_size()
            &&& t.total_size() == m.total_size() - out.len()
            &&& t.drainable_size() == m.drainable_size() - out.len()
        }),
    decreases size,
{
    let x = m.lru_leaf();
    let len = m.key_len(x);
    if !(size == 0 || !m.is_lru_leaf(x) || len <= 0) {
        let rest = if len < size {
            (size - len) as nat
        } else {
            0
        };
        lemma_remove(m, x);
        lemma_remove_drains(m, x);
        law_evict_sizes(m.remove(x), rest);
        law_whole_pages(m, x);
    }
}

/// Eviction gives at least as many indices as it is asked for, if it can get at that many
/// tokens, and stops as soon as it has them: what it takes last is not taken for nothing.
pub proof fn law_evict_enough(m: CacheModel, size: nat)
    requires
        m.wf(),
        size <= m.drainable_size(),
    ensures
        m.evict(size).1.len() >= size,
        size == 0 ==> m.evict(size) == (m, Seq::<Token>::empty()),
        size > 0 ==> exists|last: int|
            m.live(last) && !(#[trigger] m.evict(size).0.live(last)) && m.evict(size).1.len()
                - m.key_len(last) < size,
    decreases size,
{
    if size > 0 {
        lemma_something_to_evict(m);
        let x = m.lru_leaf();
        law_whole_pages(m, x);
        let len = m.key_len(x);
        let rest = if len < size {
            (size - len) as nat
        } else {
            0
        };
        let next = m.remove(x);
        lemma_remove(m, x);
        lemma_remove_drains(m, x);
        lemma_drainable_evictable(next);
        law_evict_enough(next, rest);
        let t = m.evict(size).0;
        if rest == 0 {
            assert(!t.live(x));
        } else {
            let last = choose|last: int|
                next.live(last) && !(#[trigger] next.evict(rest).0.live(last)) && next.evict(
                    rest,
                ).1.len() - next.key_len(last) < rest;
            assert(m.live(last));
            assert(!t.live(last));
            if last != ROOT {
                assert(m.node_ok(last));
            }
            assert(next.key_len(last) == m.key_len(last));
        }
    }
}

/// Eviction gives as many indices as it is asked for exactly where it can get at that many tokens.
/// Asked for more, it takes all that it can get at.
pub proof fn law_evict_limit(m: CacheModel, size: nat)
    requires
        m.wf(),
    ensures
        m.evict(size).1.len() >= size <==> size <= m.drainable_size(),
        m.evict(size).1.len() <= m.drainable_size(),
        size >= m.drainable_size() ==> m.evict(size).1.len() == m.drainable_size(),
    decreases size,
{
    let t = m.evict(size).0;
    law_evict_sizes(m, size);
    law_evict_takes_unlocked(m, size, 0);
    lemma_drainable_evictable(t);
    if size <= m.drainable_size() {
        law_evict_enough(m, size);
    } else {
        let x = m.lru_leaf();
        if m.is_lru_leaf(x) {
            law_whole_pages(m, x);
            lemma_remove(m, x);
            lemma_remove_drains(m, x);
            let len = m.key_len(x);
            lemma_drainable_evictable(m.remove(x));
            law_evict_limit(m.remove(x), (size - len) as nat);
        } else if m.drainable_size() > 0 {
            lemma_something_to_evict(m);
        } else {
            lemma_drainable_evictable(m);
        }
    }
}

/// As long as locks are in balance, any number of tokens up to the evictable size can be
/// evicted.
pub proof fn law_evictable_can_be_evicted(m: CacheModel, size: nat)
    requires
        m.wf(),
        m.balanced(),
        size <= m.evictable_size(),
    ensures
        size <= m.drainable_size(),
        m.evict(size).1.len() >= size,
{
    law_balanced_drains(m);
    law_evict_enough(m, size);
}

/// What is cached after an eviction was cached before, with the same indices.
pub proof fn law_evict_adds_nothing(m: CacheModel, size: nat, s: Seq<Token>)
    requires
        m.wf(),
        m.evict(size).0.holds(s),
    ensures
        m.holds(s),
        m.indices_for(s) == m.evict(size).0.indices_for(s),
{
    let t = m.evict(size).0;
    law_evict_takes_unlocked(m, size, 0);
    let i = choose|i: int| #[trigger] t.live(i) && s.is_prefix_of(t.prefix(i));
    let x = m.nodes[i];
    assert(m.live(i));
    law_indices_agree(m, s, i);
    law_indices_agree(t, s, i);
}

/// The prefix of a node that was evicted is no longer cached.
pub proof fn law_evicted_is_gone(m: CacheModel, size: nat, i: int)
    requires
        m.wf(),
        m.live(i),
        !m.evict(size).0.live(i),
    ensures
        !m.evict(size).0.holds(m.prefix(i)),
    decreases size,
{
    let x = m.lru_leaf();
    let len = m.key_len(x);
    if !(size == 0 || !m.is_lru_leaf(x) || len <= 0) {
        let rest = if len < size {
            (size - len) as nat
        } else {
            0
        };
        let next = m.remove(x);
        let t = next.evict(rest).0;
        lemma_remove(m, x);
        if i != x {
            assert(next.live(i));
            law_evicted_is_gone(next, rest, i);
        } else {
            law_evict_takes_unlocked(next, rest, 0);
            if t.holds(m.prefix(x)) {
                let j = choose|j: int| #[trigger] t.live(j) && m.prefix(x).is_prefix_of(t.prefix(j));
                let y = next.nodes[j];
                assert(next.live(j));
                assert(m.live(j));
                lemma_leaf_alone(m, x, j);
            }
        }
    }
}

/// Whether `part` stands in `all` from position `k` on.
pub open spec fn stands_at(all: Seq<Token>, part: Seq<Token>, k: int) -> bool {
    &&& 0 <= k
    &&& k + part.len() <= all.len()
    &&& all.subrange(k, k + part.len()) == part
}

/// The cache indices of every node that goes are among those given.
pub proof fn law_evicted_indices_are_given(m: CacheModel, size: nat, i: int)
    requires
        m.wf(),
        m.live(i),
        !m.evict(size).0.live(i),
    ensures
        exists|k: int| stands_at(m.evict(size).1, m.value(i), k),
    decreases size,
{
    let x = m.lru_leaf();
    let len = m.key_len(x);
    let out = m.evict(size).1;
    if !(size == 0 || !m.is_lru_leaf(x) || len <= 0) {
        let rest = if len < size {
            (size - len) as nat
        } else {
            0
        };
        let next = m.remove(x);
        let tail = next.evict(rest).1;
        lemma_remove(m, x);
        law_whole_pages(m, x);
        if i == x {
            assert(out.subrange(0, len) =~= m.value(x));
            assert(stands_at(out, m.value(x), 0));
        } else {
            assert(next.live(i));
            law_evicted_indices_are_given(next, rest, i);
            if i != ROOT {
                assert(m.node_ok(i));
            }
            assert(next.value(i) =~= m.value(i));
            let v = m.value(i);
            let k = choose|k: int| stands_at(tail, v, k);
            assert(out.subrange(len + k, len + k + v.len()) =~= tail.subrange(k, k + v.len()));
            assert(stands_at(out, v, len + k));
        }
    }
}

/// The cache indices that the nodes of the tree below id `n` hold.
pub open spec fn indices_below(m: CacheModel, n: nat) -> Multiset<Token>
    decreases n,
{
    if n == 0 {
        Multiset::empty()
    } else {
        let rest = indices_below(m, (n - 1) as nat);
        if m.live(n - 1) {
            rest.add(m.value(n - 1).to_multiset())
        } else {
            rest
        }
    }
}

/// All cache indices that the tree holds.
pub open spec fn indices_held(m: CacheModel) -> Multiset<Token> {
    indices_below(m, m.nodes.len())
}

/// A node that is taken out takes its cache indices with it.
proof fn lemma_remove_indices(m: CacheModel, x: int, n: nat)
    requires
        m.wf(),
        m.live(x),
        x != ROOT,
        n <= m.nodes.len(),
    ensures
        indices_below(m, n) == if x < n {
            indices_below(m.remove(x), n).add(m.value(x).to_multiset())
        } else {
            indices_below(m.remove(x), n)
        },
    decreases n,
{
    if n > 0 {
        let i = n - 1;
        let t = m.remove(x);
        lemma_remove_indices(m, x, i as nat);
        if i != ROOT {
            assert(m.node_ok(i));
        }
        assert(t.value(i) =~= m.value(i));
        if x < n {
            let a = indices_below(t, i as nat);
            if i != x && m.live(i) {
                let v = m.value(x).to_multiset();
                let w = m.value(i).to_multiset();
                assert(a.add(v).add(w) =~= a.add(w).add(v));
            }
        }
    }
}

/// Eviction neither loses nor doubles a cache index: those that the tree held are those that it
/// holds, and those given.
pub proof fn law_evict_accounts_for_indices(m: CacheModel, size: nat)
    requires
        m.wf(),
    ensures
        indices_held(m) == indices_held(m.evict(size).0).add(m.evict(size).1.to_multiset()),
    decreases size,
{
    let x = m.lru_leaf();
    let len = m.key_len(x);
    let (t, out) = m.evict(size);
    if !(size == 0 || !m.is_lru_leaf(x) || len <= 0) {
        let rest = if len < size {
            (size - len) as nat
        } else {
            0
        };
        let next = m.remove(x);
        let tail = next.evict(rest).1;
        lemma_remove(m, x);
        lemma_remove_indices(m, x, m.nodes.len());
        law_evict_accounts_for_indices(next, rest);
        let v = m.value(x);
        lemma_multiset_commutative(v, tail);
        assert(indices_held(t).add(tail.to_multiset()).add(v.to_multiset()) =~= indices_held(t).add(
            v.to_multiset().add(tail.to_multiset()),
        ));
    } else {
        assert(Seq::<Token>::empty().to_multiset() =~= Multiset::<Token>::empty()) by {
            Seq::<Token>::empty().to_multiset_ensures();
        }
        assert(indices_held(m).add(Multiset::<Token>::empty()) =~= indices_held(m));
    }
}

/// After an eviction a lookup finds a part of what it found before, with the same indices.
pub proof fn law_evict_shortens_lookups(m: CacheModel, size: nat, query: Seq<Token>)
    requires
        m.wf(),
    ensures
        ({
            let t = m.evict(size).0;
            &&& t.matched_len(query) <= m.matched_len(query)
            &&& t.indices_for(t.matched(query)) == m.indices_for(m.matched(query)).take(
                t.matched_len(query) as int,
            )
        }),
{
    let t = m.evict(size).0;
    law_evict_takes_unlocked(m, size, 0);
    lemma_matched_len(t, query);
    lemma_matched_len(m, query);
    let s = t.matched(query);
    law_evict_adds_nothing(m, size, s);
    assert(m.covers(query, t.matched_len(query)));
    let whole = m.matched(query);
    assert(s =~= whole.take(s.len() as int));
    lemma_take_is_prefix(whole, s.len() as int);
    law_indices_of_prefix(m, whole, s);
}

/// A lock protects: as long as node `n` and all nodes above it are locked, eviction changes
/// nothing about what a handle to it stands for, and its prefix stays cached.
pub proof fn law_locked_survives(m: CacheModel, size: nat, n: int, len: int)
    requires
        m.wf(),
        m.can_unlock(n),
    ensures
        ({
            let t = m.evict(size).0;
            &&& t.can_unlock(n)
            &&& t.prefix(n) == m.prefix(n)
            &&& t.readable(n, len)
            &&& t.indices_of(n, len) == m.indices_of(n, len)
            &&& t.holds(m.prefix(n))
            &&& t.indices_for(m.prefix(n)) == m.indices_for(m.prefix(n))
        }),
{
    let t = m.evict(size).0;
    law_evict_takes_unlocked(m, size, n);
    let x = m.nodes[n];
    lemma_prefix_self(m.prefix(n));
    assert(t.live(n)) by {
        if n == ROOT {
            assert(t.root_ok());
        }
    }
    lemma_live_readable(t, n, len);
    lemma_lengths(m, n);
    law_indices_agree(m, m.prefix(n), n);
    law_indices_agree(t, t.prefix(n), n);
    assert forall|i: int| #[trigger]
        t.live(i) && i != ROOT && t.prefix(i).is_prefix_of(t.prefix(n)) implies t.nodes[i].ref_count
        > 0 by {
        let y = m.nodes[i];
        assert(m.live(i));
    }
}

/// Least recently used first: if an unlocked leaf stays, then every node that goes was used
/// before it, or at the same time and was made before it.
pub proof fn law_evict_oldest_first(m: CacheModel, size: nat, gone: int, stays: int)
    requires
        m.wf(),
        m.evictable_leaf(stays),
        m.evict(size).0.live(stays),
        m.live(gone),
        !m.evict(size).0.live(gone),
    ensures
        m.before(gone, stays),
        m.nodes[gone].timestamp <= m.nodes[stays].timestamp,
        m.nodes[gone].timestamp == m.nodes[stays].timestamp ==> gone < stays,
    decreases size,
{
    let x = m.lru_leaf();
    let len = m.key_len(x);
    if !(size == 0 || !m.is_lru_leaf(x) || len <= 0) {
        let rest = if len < size {
            (size - len) as nat
        } else {
            0
        };
        let next = m.remove(x);
        lemma_remove(m, x);
        if gone != x {
            law_evict_takes_unlocked(next, rest, stays);
            assert(next.live(gone));
            if stays == x {
                let y = next.nodes[stays];
            }
            assert(next.evictable_leaf(stays)) by {
                assert forall|j: int| #[trigger] next.live(j) && j != ROOT implies next.parent(j)
                    != stays by {
                    assert(m.live(j));
                }
            }
            law_evict_oldest_first(next, rest, gone, stays);
        }
    }
}

/// Whether node `i` of cache `m` is in the tree when the first `k` nodes of `order` are taken out.
pub open spec fn still_in(m: CacheModel, order: Seq<int>, k: int, i: int) -> bool {
    &&& 0 <= i < m.nodes.len()
    &&& m.nodes[i].alive
    &&& forall|j: int| 0 <= j < k ==> order[j] != i
}

/// Whether node `i` can then be taken out: it is not the root, no lock protects it, and no node
/// hangs under it.
pub open spec fn free_to_go(m: CacheModel, order: Seq<int>, k: int, i: int) -> bool {
    &&& i != 0
    &&& still_in(m, order, k, i)
    &&& m.nodes[i].ref_count == 0
    &&& forall|c: int| #[trigger] still_in(m, order, k, c) ==> m.nodes[c].parent != Some(i)
}

/// The cache indices of node `i` that those of its parent do not have.
pub open spec fn indices_beyond_parent(m: CacheModel, i: int) -> Seq<Token> {
    m.nodes[i].indices.skip(m.nodes[m.nodes[i].parent->0].indices.len() as int)
}

/// The cache indices of the first `k` nodes of `order`.
pub open spec fn indices_taken(m: CacheModel, order: Seq<int>, k: nat) -> Seq<Token>
    decreases k,
{
    if k == 0 {
        Seq::empty()
    } else {
        indices_taken(m, order, (k - 1) as nat) + indices_beyond_parent(m, order[k - 1])
    }
}

/// Whether the nodes of `order`, taken out one after the other, make `t` out of `m` and give the
/// indices `out`:
///
/// - each can be taken out when its turn comes;
/// - of all that can, it is the one with the lowest timestamp, and the lowest id among equals;
/// - before each, fewer than `size` indices were given;
/// - after the last, `size` indices were given, or no node is left that can be taken out;
/// - nothing else changes.
pub open spec fn evicts_in_order(
    m: CacheModel,
    size: nat,
    t: CacheModel,
    out: Seq<Token>,
    order: Seq<int>,
) -> bool {
    let all = order.len() as int;
    &&& forall|k: int| #![trigger order[k]]
        0 <= k < all ==> {
            &&& free_to_go(m, order, k, order[k])
            &&& indices_taken(m, order, k as nat).len() < size
        }
    &&& forall|k: int, j: int| #![trigger free_to_go(m, order, k, j)]
        0 <= k < all && free_to_go(m, order, k, j) ==> {
            ||| m.nodes[order[k]].timestamp < m.nodes[j].timestamp
            ||| m.nodes[order[k]].timestamp == m.nodes[j].timestamp && order[k] <= j
        }
    &&& out == indices_taken(m, order, order.len())
    &&& out.len() >= size || forall|j: int| !#[trigger] free_to_go(m, order, all, j)
    &&& t.page_size == m.page_size
    &&& t.clock == m.clock
    &&& t.nodes.len() == m.nodes.len()
    &&& forall|i: int|
        0 <= i < m.nodes.len() ==> #[trigger] t.nodes[i] == (NodeModel {
            alive: still_in(m, order, all, i),
            ..m.nodes[i]
        })
}

/// What is in the tree when `x` goes first.
proof fn lemma_still_in(m: CacheModel, x: int, order: Seq<int>, k: int, i: int)
    requires
        0 <= x < m.nodes.len(),
        0 <= k <= order.len(),
    ensures
        still_in(m, seq![x] + order, k + 1, i) == still_in(m.remove(x), order, k, i),
{
    let longer = seq![x] + order;
    assert(longer[0] == x);
    assert forall|j: int| 0 <= j < k implies longer[j + 1] == #[trigger] order[j] by {}
    if still_in(m, longer, k + 1, i) {
        assert(longer[0] != i);
        assert forall|j: int| 0 <= j < k implies order[j] != i by {
            assert(longer[j + 1] != i);
        }
    }
    if still_in(m.remove(x), order, k, i) {
        assert forall|j: int| 0 <= j < k + 1 implies longer[j] != i by {
            if j > 0 {
                assert(order[j - 1] != i);
            }
        }
    }
}

/// What can be taken out when `x` has gone first.
proof fn lemma_free_to_go(m: CacheModel, x: int, order: Seq<int>, k: int, i: int)
    requires
        0 <= x < m.nodes.len(),
        0 <= k <= order.len(),
    ensures
        free_to_go(m, seq![x] + order, k + 1, i) == free_to_go(m.remove(x), order, k, i),
{
    let longer = seq![x] + order;
    let next = m.remove(x);
    lemma_still_in(m, x, order, k, i);
    assert forall|c: int|
        #![trigger still_in(m, longer, k + 1, c)]
        #![trigger still_in(next, order, k, c)]
        still_in(m, longer, k + 1, c) == still_in(next, order, k, c) by {
        lemma_still_in(m, x, order, k, c);
    }
}

/// The indices taken when `x` goes first.
proof fn lemma_indices_taken(m: CacheModel, x: int, order: Seq<int>, k: nat)
    requires
        m.wf(),
        0 < x < m.nodes.len(),
        k <= order.len(),
        forall|j: int| 0 <= j < order.len() ==> 0 < #[trigger] order[j] < m.nodes.len(),
    ensures
        indices_taken(m, seq![x] + order, k + 1) == indices_beyond_parent(m, x) + indices_taken(
            m.remove(x),
            order,
            k,
        ),
    decreases k,
{
    let longer = seq![x] + order;
    let next = m.remove(x);
    if k > 0 {
        lemma_indices_taken(m, x, order, (k - 1) as nat);
        let y = order[k - 1];
        assert(longer[k as int] == y);
        assert(indices_taken(m, longer, k + 1) == indices_taken(m, longer, k)
            + indices_beyond_parent(m, y));
        assert(m.node_ok(y));
        assert(indices_beyond_parent(next, y) == indices_beyond_parent(m, y));
        assert(indices_beyond_parent(m, x) + (indices_taken(next, order, (k - 1) as nat)
            + indices_beyond_parent(next, y)) =~= indices_beyond_parent(m, x) + indices_taken(
            next,
            order,
            (k - 1) as nat,
        ) + indices_beyond_parent(m, y));
    } else {
        assert(longer[0] == x);
        assert(indices_taken(m, longer, 0) =~= Seq::<Token>::empty());
        assert(indices_taken(m, longer, 1) =~= indices_beyond_parent(m, x));
        assert(indices_taken(next, order, 0) =~= Seq::<Token>::empty());
        assert(indices_beyond_parent(m, x) + indices_taken(next, order, 0)
            =~= indices_beyond_parent(m, x));
    }
}

/// Whether a node can be taken out at the start.
proof fn lemma_free_at_start(m: CacheModel, order: Seq<int>, i: int)
    requires
        m.wf(),
    ensures
        free_to_go(m, order, 0, i) == m.evictable_leaf(i),
{
    assert forall|c: int| #[trigger] still_in(m, order, 0, c) == m.live(c) by {}
    assert forall|c: int| #[trigger] m.live(c) && c != ROOT implies still_in(m, order, 0, c)
        && m.nodes[c].parent is Some by {
        assert(m.node_ok(c));
    }
    if free_to_go(m, order, 0, i) {
        assert forall|j: int| #[trigger] m.live(j) && j != ROOT implies m.parent(j) != i by {
            assert(still_in(m, order, 0, j));
        }
    }
    if m.evictable_leaf(i) {
        assert forall|c: int| #[trigger] still_in(m, order, 0, c) implies m.nodes[c].parent != Some(
            i,
        ) by {
            assert(m.live(c));
            assert(m.root_ok());
        }
    }
}

/// A course that `x` goes first in, and then the nodes of `order`.
proof fn lemma_longer_course(
    m: CacheModel,
    size: nat,
    x: int,
    t: CacheModel,
    tail: Seq<Token>,
    order: Seq<int>,
)
    requires
        m.wf(),
        m.is_lru_leaf(x),
        size > 0,
        m.remove(x).wf(),
        evicts_in_order(
            m.remove(x),
            if m.key_len(x) < size {
                (size - m.key_len(x)) as nat
            } else {
                0
            },
            t,
            tail,
            order,
        ),
    ensures
        evicts_in_order(m, size, t, m.value(x) + tail, seq![x] + order),
{
    let next = m.remove(x);
    let longer = seq![x] + order;
    let all = order.len() as int;
    let out = m.value(x) + tail;
    assert(m.node_ok(x));
    lemma_lengths(m, x);
    lemma_lengths(m, m.parent(x));
    law_whole_pages(m, x);
    assert(indices_beyond_parent(m, x) =~= m.value(x));
    assert forall|j: int| 0 <= j < all implies 0 < #[trigger] order[j] < m.nodes.len() by {
        assert(free_to_go(next, order, j, order[j]));
    }
    assert forall|k: int| #![trigger longer[k]] 0 <= k < longer.len() implies {
        &&& free_to_go(m, longer, k, longer[k])
        &&& indices_taken(m, longer, k as nat).len() < size
    } by {
        if k == 0 {
            lemma_free_at_start(m, longer, x);
        } else {
            assert(longer[k] == order[k - 1]);
            lemma_free_to_go(m, x, order, k - 1, order[k - 1]);
            lemma_indices_taken(m, x, order, (k - 1) as nat);
        }
    }
    assert forall|k: int, j: int| #![trigger free_to_go(m, longer, k, j)]
        0 <= k < longer.len() && free_to_go(m, longer, k, j) implies {
        ||| m.nodes[longer[k]].timestamp < m.nodes[j].timestamp
        ||| m.nodes[longer[k]].timestamp == m.nodes[j].timestamp && longer[k] <= j
    } by {
        if k == 0 {
            lemma_free_at_start(m, longer, j);
            assert(m.evictable_leaf(j));
        } else {
            assert(longer[k] == order[k - 1]);
            lemma_free_to_go(m, x, order, k - 1, j);
            assert(free_to_go(next, order, k - 1, j));
        }
    }
    lemma_indices_taken(m, x, order, order.len());
    assert(longer.len() == all + 1);
    if out.len() < size {
        assert forall|j: int| !#[trigger] free_to_go(m, longer, all + 1, j) by {
            lemma_free_to_go(m, x, order, all, j);
        }
    }
    assert forall|i: int| 0 <= i < m.nodes.len() implies #[trigger] t.nodes[i] == (NodeModel {
        alive: still_in(m, longer, all + 1, i),
        ..m.nodes[i]
    }) by {
        lemma_still_in(m, x, order, all, i);
    }
}

/// Eviction takes unlocked leaves out one after the other, always the one that was used longest
/// ago, until it has given as many indices as it was asked for.
pub proof fn law_evict_course(m: CacheModel, size: nat)
    requires
        m.wf(),
    ensures
        exists|order: Seq<int>|
            evicts_in_order(m, size, m.evict(size).0, m.evict(size).1, order),
    decreases size,
{
    let x = m.lru_leaf();
    let len = m.key_len(x);
    let (t, out) = m.evict(size);
    if size == 0 {
        let order = Seq::<int>::empty();
        assert forall|i: int| 0 <= i < m.nodes.len() implies #[trigger] t.nodes[i] == (NodeModel {
            alive: still_in(m, order, 0, i),
            ..m.nodes[i]
        }) by {}
        assert(evicts_in_order(m, size, t, out, order));
    } else if !m.is_lru_leaf(x) {
        let order = Seq::<int>::empty();
        assert forall|j: int| !#[trigger] free_to_go(m, order, 0, j) by {
            lemma_free_at_start(m, order, j);
            if m.evictable_leaf(j) {
                lemma_lru_exists(m, j);
            }
        }
        assert forall|i: int| 0 <= i < m.nodes.len() implies #[trigger] t.nodes[i] == (NodeModel {
            alive: still_in(m, order, 0, i),
            ..m.nodes[i]
        }) by {}
        assert(evicts_in_order(m, size, t, out, order));
    } else {
        law_whole_pages(m, x);
        let rest = if len < size {
            (size - len) as nat
        } else {
            0
        };
        let next = m.remove(x);
        lemma_remove(m, x);
        law_evict_course(next, rest);
        let tail = next.evict(rest).1;
        let order = choose|order: Seq<int>| evicts_in_order(next, rest, t, tail, order);
        lemma_longer_course(m, size, x, t, tail, order);
    }
}

/// Eviction keeps each node's own locks.
pub proof fn law_evict_keeps_own_locks(m: CacheModel, size: nat, k: int)
    requires
        m.wf(),
        k != ROOT,
        m.evict(size).0.live(k),
    ensures
        m.evict(size).0.own_locks(k) == m.own_locks(k),
    decreases size,
{
    let x = m.lru_leaf();
    let len = m.key_len(x);
    if !(size == 0 || !m.is_lru_leaf(x) || len <= 0) {
        let rest = if len < size {
            (size - len) as nat
        } else {
            0
        };
        lemma_remove(m, x);
        let next = m.remove(x);
        let f = |i: int|
            if i != ROOT && m.live(i) && m.parent(i) == k {
                m.nodes[i].ref_count as int
            } else {
                0
            };
        let g = |i: int|
            if i != ROOT && next.live(i) && next.parent(i) == k {
                next.nodes[i].ref_count as int
            } else {
                0
            };
        assert forall|i: int| 0 <= i < m.nodes.len() && i != x implies #[trigger] f(i) == g(i) by {
            assert(next.nodes[i] == m.nodes[i]);
        }
        lemma_sum_change(f, g, m.nodes.len(), x);
        law_evict_takes_unlocked(next, rest, 0);
        let y = next.nodes[k];
        law_evict_keeps_own_locks(next, rest, k);
    }
}

/// Eviction keeps the locks in balance.
pub proof fn law_evict_keeps_balance(m: CacheModel, size: nat)
    requires
        m.wf(),
        m.balanced(),
    ensures
        m.evict(size).0.balanced(),
{
    let t = m.evict(size).0;
    law_evict_takes_unlocked(m, size, 0);
    assert forall|k: int| k != ROOT && #[trigger] t.live(k) implies t.own_locks(k) >= 0 by {
        let x = m.nodes[k];
        assert(m.live(k));
        law_evict_keeps_own_locks(m, size, k);
    }
}

/// What was locked is there after an eviction as it was before the lock.
pub proof fn law_lock_then_evict(m: CacheModel, size: nat, n: int, len: int)
    requires
        m.wf(),
        m.live(n),
    ensures
        ({
            let t = m.after_lock(n).evict(size).0;
            &&& t.live(n)
            &&& t.can_unlock(n)
            &&& t.readable(n, len)
            &&& t.indices_of(n, len) == m.indices_of(n, len)
            &&& t.holds(m.prefix(n))
            &&& t.indices_for(m.prefix(n)) == m.indices_for(m.prefix(n))
        }),
{
    law_lock_then_unlock(m, n);
    law_locks_keep_handles(m, n, n, len);
    lemma_lengths(m, n);
    lemma_prefix_self(m.prefix(n));
    law_indices_agree(m, m.prefix(n), n);
    law_locks_keep_contents(m, n, m.prefix(n));
    lemma_locked_wf(m, n);
    law_locked_survives(m.after_lock(n), size, n, len);
}

/// Where locks are in balance, a node with a lock of its own survives every eviction, and keeps
/// that lock.
pub proof fn law_own_lock_protects(m: CacheModel, size: nat, n: int, len: int)
    requires
        m.wf(),
        m.balanced(),
        m.live(n),
        n != ROOT,
        m.own_locks(n) >= 1,
    ensures
        ({
            let t = m.evict(size).0;
            &&& t.live(n)
            &&& t.own_locks(n) == m.own_locks(n)
            &&& t.prefix(n) == m.prefix(n)
            &&& t.readable(n, len)
            &&& t.indices_of(n, len) == m.indices_of(n, len)
        }),
{
    law_own_lock_can_be_returned(m, n);
    law_locked_survives(m, size, n, len);
    law_evict_keeps_own_locks(m, size, n);
}

/// To evict the whole evictable size leaves what is protected, and nothing else.
pub proof fn law_evict_all(m: CacheModel, size: nat)
    requires
        m.wf(),
        m.balanced(),
        size == m.evictable_size(),
    ensures
        m.evict(size).1.len() == size,
        m.evict(size).0.evictable_size() == 0,
        m.evict(size).0.total_size() == m.protected_size(),
{
    law_evictable_can_be_evicted(m, size);
    law_evict_sizes(m, size);
    law_evict_takes_unlocked(m, size, 0);
    lemma_sizes_add_up(m);
    lemma_sizes_add_up(m.evict(size).0);
}

} // verus!
