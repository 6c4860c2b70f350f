//! What each operation does to the nodes one by one, what it answers, and when it refuses: in terms
//! of the fields of the nodes alone.

use crate::cache::{
    evict_step, insert_step, is_lookup, lock_step, match_step, read_step, unlock_step, write_step,
    InsertResult, MatchResult, RadixCacheHandle,
};
use crate::align::lemma_aligned_down;
use crate::changes::lemma_lengths;
use crate::laws::contents::{law_indices_agree, law_tail_is_ignored, lemma_live_readable};
use crate::laws::eviction::{evicts_in_order, law_evict_course, law_evict_limit};
use crate::laws::locking::law_when_locks_are_possible;
use crate::lookup::{lemma_matched_len, lemma_node_over_end};
use crate::matching::{lemma_after_insert, lemma_after_match, lemma_matched_place};
use crate::model::{empty_cache, CacheModel, NodeModel, Token, ROOT};
use crate::trie::lemma_prefix_self;
use vstd::prelude::*;

verus! {

/// A node of the tree is one that is not evicted. What it holds itself is what its parent does not
/// hold: its prefix is that of its parent and then its own tokens, and its cache indices are those
/// of its parent and then its own.
pub proof fn law_own_tokens(m: CacheModel, i: int, p: int)
    requires
        m.wf(),
        0 <= i < m.nodes.len(),
    ensures
        m.live(i) <==> m.nodes[i].alive,
        m.prefix(i) == m.nodes[i].prefix,
        m.nodes[i].prefix.len() == m.nodes[i].indices.len(),
        m.key(i).len() == m.key_len(i),
        m.value(i).len() == m.key_len(i),
        i == 0 <==> m.nodes[i].parent is None,
        i == 0 ==> m.nodes[i].prefix.len() == 0 && m.nodes[i].alive && m.key(i).len() == 0,
        m.nodes[i].parent == Some(p) ==> {
            &&& 0 <= p < m.nodes.len()
            &&& m.nodes[i].prefix == m.nodes[p].prefix + m.key(i)
            &&& m.nodes[i].indices == m.nodes[p].indices + m.value(i)
            &&& m.nodes[i].alive ==> m.nodes[p].alive
        },
{
    lemma_lengths(m, i);
    if i == 0 {
        assert(m.root_ok());
    } else {
        assert(m.node_ok(i));
        let q = m.parent(i);
        lemma_lengths(m, q);
        let (x, y) = (m.nodes[i], m.nodes[q]);
        assert(y.prefix == x.prefix.subrange(0, y.prefix.len() as int));
        assert(y.indices == x.indices.subrange(0, y.indices.len() as int));
        assert(x.prefix =~= y.prefix + m.key(i));
        assert(x.indices =~= y.indices + m.value(i));
    }
}

/// A new cache has the page size that it was asked for, and one node: the root, which stands for
/// the empty prefix and is locked once.
pub proof fn law_new_cache(page_size: nat)
    ensures
        ({
            let m = empty_cache(page_size);
            &&& m.page_size == page_size
            &&& m.clock == 1
            &&& m.nodes.len() == 1
            &&& m.nodes[0].prefix.len() == 0
            &&& m.nodes[0].indices.len() == 0
            &&& m.nodes[0].parent is None
            &&& m.nodes[0].ref_count == 1
            &&& m.nodes[0].timestamp == 0
            &&& m.nodes[0].alive
        }),
{
}

/// What is found of an input is whole pages that a node of the tree goes on from, and no node of
/// the tree goes on from more pages of it.
pub proof fn law_longest_run(m: CacheModel, input: Seq<Token>)
    requires
        m.wf(),
    ensures
        ({
            let l = m.matched_len(input);
            &&& l <= input.len()
            &&& l % m.page_size == 0
            &&& exists|i: int|
                0 <= i < m.nodes.len() && m.nodes[i].alive && input.take(l as int).is_prefix_of(
                    #[trigger] m.nodes[i].prefix,
                )
            &&& forall|i: int, k: nat| #![trigger m.nodes[i], input.take(k as int)]
                0 <= i < m.nodes.len() && m.nodes[i].alive && k <= input.len() && k % m.page_size
                    == 0 && input.take(k as int).is_prefix_of(m.nodes[i].prefix) ==> k <= l
        }),
{
    let l = m.matched_len(input);
    lemma_matched_len(m, input);
    let i = choose|i: int| #[trigger] m.live(i) && m.matched(input).is_prefix_of(m.prefix(i));
    assert(input.take(l as int).is_prefix_of(m.nodes[i].prefix));
    assert forall|i: int, k: nat| #![trigger m.nodes[i], input.take(k as int)]
        0 <= i < m.nodes.len() && m.nodes[i].alive && k <= input.len() && k % m.page_size == 0
            && input.take(k as int).is_prefix_of(m.nodes[i].prefix) implies k <= l by {
        assert(m.live(i) && input.take(k as int).is_prefix_of(m.prefix(i)));
        assert(m.covers(input, k));
    }
}

/// The cache indices that a lookup gives are the first ones of every node of the tree that goes on
/// from what was found.
pub proof fn law_found_indices(m: CacheModel, input: Seq<Token>, i: int)
    requires
        m.wf(),
        0 <= i < m.nodes.len(),
        m.nodes[i].alive,
        input.take(m.matched_len(input) as int).is_prefix_of(m.nodes[i].prefix),
    ensures
        m.indices_for(m.matched(input)) == m.nodes[i].indices.take(m.matched_len(input) as int),
        m.indices_for(m.matched(input)).len() == m.matched_len(input),
{
    lemma_matched_len(m, input);
    assert(m.live(i));
    law_indices_agree(m, m.matched(input), i);
}

/// An insertion keeps the whole pages of its input: less than a page is left over.
pub proof fn law_pages_kept(m: CacheModel, n: nat)
    requires
        m.wf(),
    ensures
        m.insert_len(n) <= n < m.insert_len(n) + m.page_size,
        m.insert_len(n) % m.page_size == 0,
        n % m.page_size == 0 ==> m.insert_len(n) == n,
{
    lemma_aligned_down(n, m.page_size);
}

/// Whether `t` is `m` with node `n` divided after `s`, at the time that `m` has.
pub open spec fn divided_after(m: CacheModel, t: CacheModel, s: Seq<Token>, n: int) -> bool {
    let x = m.nodes[n];
    let made = m.nodes.len() as int;
    &&& 0 < n < made
    &&& x.alive
    &&& s.is_prefix_of(x.prefix)
    &&& x.parent matches Some(p) && m.nodes[p].prefix.len() < s.len() < x.prefix.len()
    &&& t.nodes.len() == made + 1
    &&& t.nodes[made] == NodeModel {
        prefix: s,
        indices: x.indices.take(s.len() as int),
        parent: x.parent,
        ref_count: x.ref_count,
        timestamp: m.clock,
        alive: true,
    }
    &&& t.nodes[n].parent == Some(made)
    &&& forall|i: int|
        0 <= i < made && i != n ==> (#[trigger] t.nodes[i]).parent == m.nodes[i].parent
}

/// A match marks the nodes of the tree that end in what was found, and keeps all else that they
/// hold, and their locks. Where none ends exactly there it divides the one that goes on, and no
/// node changes its place but that one. It takes one tick of the clock.
pub proof fn law_match_by_node(m: CacheModel, input: Seq<Token>)
    requires
        m.wf(),
    ensures
        ({
            let t = m.after_match(input);
            let s = input.take(m.matched_len(input) as int);
            &&& t.page_size == m.page_size
            &&& t.clock == m.clock + 1
            &&& t.nodes.len() >= m.nodes.len()
            &&& forall|i: int|
                0 <= i < m.nodes.len() ==> {
                    let x = m.nodes[i];
                    let y = #[trigger] t.nodes[i];
                    &&& y.prefix == x.prefix
                    &&& y.indices == x.indices
                    &&& y.ref_count == x.ref_count
                    &&& y.alive == x.alive
                    &&& y.timestamp == if i != 0 && x.alive && x.prefix.is_prefix_of(s) {
                        m.clock
                    } else {
                        x.timestamp
                    }
                }
            &&& if exists|i: int|
                0 <= i < m.nodes.len() && (#[trigger] m.nodes[i]).alive && m.nodes[i].prefix == s {
                &&& t.nodes.len() == m.nodes.len()
                &&& forall|i: int|
                    0 <= i < m.nodes.len() ==> (#[trigger] t.nodes[i]).parent == m.nodes[i].parent
            } else {
                exists|n: int| divided_after(m, t, s, n)
            }
        }),
{
    let t = m.after_match(input);
    let s = m.matched(input);
    let u = m.touch(s);
    let n = m.node_over(s);
    lemma_matched_place(m, input);
    assert forall|i: int| 0 <= i < m.nodes.len() implies {
        let x = m.nodes[i];
        let y = #[trigger] t.nodes[i];
        &&& y.prefix == x.prefix
        &&& y.indices == x.indices
        &&& y.ref_count == x.ref_count
        &&& y.alive == x.alive
        &&& y.timestamp == if i != 0 && x.alive && x.prefix.is_prefix_of(s) {
            m.clock
        } else {
            x.timestamp
        }
    } by {
        let z = u.nodes[i];
    }
    if m.has_end(s) {
        let i = choose|i: int| #[trigger] m.ends_at(i, s);
        assert(m.nodes[i].alive && m.nodes[i].prefix == s);
        assert forall|i: int| 0 <= i < m.nodes.len() implies (#[trigger] t.nodes[i]).parent
            == m.nodes[i].parent by {
            let z = u.nodes[i];
        }
    } else {
        assert forall|i: int|
            0 <= i < m.nodes.len() && (#[trigger] m.nodes[i]).alive implies m.nodes[i].prefix
            != s by {
            assert(!m.ends_at(i, s));
        }
        assert(m.node_ok(n));
        let z = u.nodes[n];
        assert(m.prefix(n).take(s.len() as int) =~= s);
        assert forall|i: int|
            0 <= i < m.nodes.len() && i != n implies (#[trigger] t.nodes[i]).parent
            == m.nodes[i].parent by {
            let z = u.nodes[i];
        }
        assert(divided_after(m, t, s, n));
    }
}

/// An insertion does what a match of the whole pages of its input does. Where these were not all
/// cached, it then hangs a leaf without locks under the node that ends what was, and that takes one
/// more tick of the clock.
pub proof fn law_insert_by_node(m: CacheModel, input: Seq<Token>, indices: Seq<Token>)
    requires
        m.wf(),
        input.len() == indices.len(),
    ensures
        ({
            let t = m.after_insert(input, indices);
            let len = m.insert_len(input.len());
            let s = input.take(len as int);
            let l = m.matched_len(s);
            let u = m.after_match(s);
            let made = u.nodes.len() as int;
            &&& l == m.matched_len(input)
            &&& if l == len {
                t == u
            } else {
                &&& t.page_size == m.page_size
                &&& t.clock == m.clock + 2
                &&& t.nodes.len() == made + 1
                &&& forall|i: int| 0 <= i < made ==> #[trigger] t.nodes[i] == u.nodes[i]
                &&& exists|p: int| #![trigger u.nodes[p]]
                    {
                        &&& 0 <= p < made
                        &&& u.nodes[p].alive
                        &&& u.nodes[p].prefix == input.take(l as int)
                        &&& t.nodes[made] == NodeModel {
                            prefix: s,
                            indices: u.nodes[p].indices + indices.subrange(l as int, len as int),
                            parent: Some(p),
                            ref_count: 0,
                            timestamp: m.clock + 1,
                            alive: true,
                        }
                    }
            }
        }),
{
    let t = m.after_insert(input, indices);
    let len = m.insert_len(input.len());
    let s = input.take(len as int);
    let l = m.matched_len(s);
    let u = m.after_match(s);
    lemma_after_match(m, s);
    lemma_after_insert(m, input, indices);
    law_tail_is_ignored(m, input);
    lemma_matched_len(m, s);
    if l != len {
        let p = m.match_node(s);
        assert(u.nodes[p].alive);
        assert(s.take(l as int) =~= input.take(l as int));
    }
}

/// A lookup points to the node of the tree that goes on from what was found, and whose parent does
/// not. Where nothing was found that is the root.
pub proof fn law_lookup_place(m: CacheModel, input: Seq<Token>, r: MatchResult)
    requires
        m.wf(),
        is_lookup(m, input, r),
    ensures
        ({
            let (n, l) = (r.handle.id(), r.handle.len());
            &&& l == m.matched_len(input)
            &&& 0 <= n < m.nodes.len()
            &&& m.nodes[n].alive
            &&& input.take(l).is_prefix_of(m.nodes[n].prefix)
            &&& n == 0 <==> l == 0
            &&& m.nodes[n].parent matches Some(p) ==> m.nodes[p].prefix.len() < l
        }),
{
    let s = m.matched(input);
    let n = m.node_over(s);
    lemma_matched_place(m, input);
    lemma_lengths(m, n);
    assert(m.root_ok());
    lemma_prefix_self(s);
    if n != 0 {
        assert(m.node_ok(n));
    }
    if s.len() == 0 {
        assert(s =~= m.prefix(0));
        assert(m.ends_at(0, s));
        lemma_node_over_end(m, 0, s);
    }
}

/// What a handle reads are the first cache indices of its node, as many as it asks for or as there
/// are.
pub proof fn law_what_a_handle_reads(m: CacheModel, n: int, len: int)
    requires
        m.wf(),
        0 <= n < m.nodes.len(),
        0 <= len,
    ensures
        ({
            let all = m.nodes[n].indices;
            let read = m.indices_of(n, len);
            &&& read.len() == if len < all.len() {
                len
            } else {
                all.len() as int
            }
            &&& forall|k: int| 0 <= k < read.len() ==> #[trigger] read[k] == all[k]
        }),
{
}

/// A handle to a node of the tree can always be read. One to an evicted node can be read as far as
/// its parent holds what it asks for, and the parent can be read. One that asks for nothing can
/// always be read, and one to no node at all can only then.
pub proof fn law_when_a_handle_reads(m: CacheModel, n: int, len: int, p: int)
    requires
        m.wf(),
    ensures
        len <= 0 ==> m.readable(n, len),
        len > 0 && !(0 <= n < m.nodes.len()) ==> !m.readable(n, len),
        0 <= n < m.nodes.len() && m.nodes[n].alive ==> m.readable(n, len),
        0 <= n < m.nodes.len() && !m.nodes[n].alive && m.nodes[n].parent == Some(p) ==> {
            m.readable(n, len) <==> len <= m.nodes[p].prefix.len() && m.readable(p, len)
        },
        0 <= n < m.nodes.len() && m.nodes[n].parent is None ==> m.nodes[n].alive,
{
    assert(m.root_ok());
    if m.live(n) {
        lemma_live_readable(m, n, len);
    } else if 0 <= n < m.nodes.len() {
        assert(n != ROOT);
        assert(m.node_ok(n));
        if m.nodes[n].parent == Some(p) && len > 0 {
            assert(m.on_path(n, n));
            assert forall|a: int| #[trigger] m.on_path(a, p) implies m.on_path(a, n) by {}
            assert forall|a: int| #[trigger] m.on_path(a, n) implies a == n || m.on_path(a, p) by {}
            if m.readable(n, len) {
                assert(m.start(n) >= len);
                assert forall|a: int| #[trigger]
                    m.on_path(a, p) && a != ROOT && m.start(a) < len implies m.nodes[a].alive by {
                    assert(m.on_path(a, n));
                }
            }
            if m.readable(p, len) && len <= m.nodes[p].prefix.len() {
                assert forall|a: int| #[trigger]
                    m.on_path(a, n) && a != ROOT && m.start(a) < len implies m.nodes[a].alive by {
                    assert(a != n);
                    assert(m.on_path(a, p));
                }
            }
        }
    }
}

/// A match is refused only when the clock has run out, and then changes nothing. Else its handle
/// points to a node that ends exactly what was found.
pub proof fn law_match_outcome(
    was: CacheModel,
    now: CacheModel,
    input: Seq<Token>,
    r: Option<MatchResult>,
)
    requires
        was.wf(),
        match_step(was, now, input, r),
    ensures
        r is None <==> was.clock >= u64::MAX,
        r is None ==> now == was,
        r matches Some(found) ==> {
            let (n, l) = (found.handle.id(), found.handle.len());
            &&& now == was.after_match(input)
            &&& l == was.matched_len(input)
            &&& 0 <= n < now.nodes.len()
            &&& now.nodes[n].alive
            &&& now.nodes[n].prefix == input.take(l)
        },
{
    lemma_after_match(was, input);
}

/// An insertion is refused only where there is not one index for each token, or where there is no
/// room left: in the clock for a tick, or for two if not all whole pages are cached, and in the
/// total size for the tokens that are not. A refusal changes nothing. Else the result says how
/// much was cached before, and its handle points to a node that ends exactly the whole pages of
/// the input.
pub proof fn law_insert_outcome(
    was: CacheModel,
    now: CacheModel,
    input: Seq<Token>,
    indices: Seq<Token>,
    r: Option<InsertResult>,
)
    requires
        was.wf(),
        insert_step(was, now, input, indices, r),
    ensures
        r is Some <==> {
            let fresh = was.insert_len(input.len()) - was.matched_len(input);
            &&& input.len() == indices.len()
            &&& was.total_size() + fresh <= usize::MAX
            &&& was.clock + if fresh == 0 {
                1int
            } else {
                2
            } <= u64::MAX
        },
        r is None ==> now == was,
        r matches Some(done) ==> {
            let (n, len) = (done.handle.id(), done.handle.len());
            &&& now == was.after_insert(input, indices)
            &&& done.cached_len == was.matched_len(input)
            &&& len == was.insert_len(input.len())
            &&& 0 <= n < now.nodes.len()
            &&& now.nodes[n].alive
            &&& now.nodes[n].prefix == input.take(len)
            &&& now.clock <= u64::MAX
        },
{
    if input.len() == indices.len() {
        lemma_after_insert(was, input, indices);
        law_tail_is_ignored(was, input);
    }
}

/// A lock is refused only where the node is not in the tree, or where a node on the way to it is
/// locked as often as can be counted. A refusal changes nothing.
pub proof fn law_lock_outcome(was: CacheModel, now: CacheModel, n: int, r: bool)
    requires
        was.wf(),
        lock_step(was, now, n, r),
    ensures
        r <==> {
            &&& 0 <= n < was.nodes.len()
            &&& was.nodes[n].alive
            &&& forall|i: int|
                i != 0 && #[trigger] was.on_path(i, n) ==> was.nodes[i].ref_count + 1 <= usize::MAX
        },
        r ==> now == was.after_lock(n),
        !r ==> now == was,
{
    law_when_locks_are_possible(was, n);
}

/// The return of a lock is refused only where the node is not in the tree, or where a node on the
/// way to it is not locked. A refusal changes nothing.
pub proof fn law_unlock_outcome(was: CacheModel, now: CacheModel, n: int, r: bool)
    requires
        was.wf(),
        unlock_step(was, now, n, r),
    ensures
        r <==> {
            &&& 0 <= n < was.nodes.len()
            &&& was.nodes[n].alive
            &&& forall|i: int|
                i != 0 && #[trigger] was.on_path(i, n) ==> was.nodes[i].ref_count >= 1
        },
        r ==> now == was.after_unlock(n),
        !r ==> now == was,
{
    law_when_locks_are_possible(was, n);
}

/// A handle to a node of the tree is never refused its cache indices, and gets the first ones of
/// that node.
pub proof fn law_read_outcome(m: CacheModel, handle: RadixCacheHandle, r: Option<Vec<Token>>)
    requires
        m.wf(),
        read_step(m, handle, r),
        handle.len() >= 0,
    ensures
        r is Some <==> m.readable(handle.id(), handle.len()),
        m.live(handle.id()) ==> r is Some,
        r matches Some(v) ==> {
            let all = m.nodes[handle.id()].indices;
            if handle.len() == 0 {
                v@.len() == 0
            } else {
                &&& 0 <= handle.id() < m.nodes.len()
                &&& v@.len() == if handle.len() < all.len() {
                    handle.len()
                } else {
                    all.len() as int
                }
                &&& forall|k: int| 0 <= k < v@.len() ==> #[trigger] v@[k] == all[k]
            }
        },
{
    if m.live(handle.id()) {
        lemma_live_readable(m, handle.id(), handle.len());
    }
    if handle.len() > 0 && r is Some {
        law_what_a_handle_reads(m, handle.id(), handle.len());
    }
}

/// What is written over an output is what is read, and a refusal leaves the output as it was.
pub proof fn law_write_outcome(
    m: CacheModel,
    handle: RadixCacheHandle,
    was: Seq<Token>,
    now: Seq<Token>,
    done: bool,
    r: Option<Vec<Token>>,
)
    requires
        write_step(m, handle, was, now, done),
        read_step(m, handle, r),
    ensures
        done <==> r is Some,
        done ==> now == r->0@,
        !done ==> now == was,
{
}

/// An eviction is refused only where taking out one unlocked leaf after the other, as long as there
/// is one, gives fewer indices than asked for. A refusal changes nothing. Else that is what the
/// eviction does, and it gives at least as many as asked for.
pub proof fn law_evict_outcome(was: CacheModel, now: CacheModel, size: nat, r: Option<Vec<Token>>)
    requires
        was.wf(),
        evict_step(was, now, size, r),
    ensures
        r is None ==> now == was,
        r is None ==> exists|t: CacheModel, out: Seq<Token>, order: Seq<int>|
            #[trigger] evicts_in_order(was, size, t, out, order) && out.len() < size,
        r matches Some(v) ==> v@.len() >= size,
        r matches Some(v) ==> exists|order: Seq<int>|
            evicts_in_order(was, size, now, v@, order),
{
    law_evict_limit(was, size);
    law_evict_course(was, size);
    let (t, out) = was.evict(size);
    let order = choose|order: Seq<int>| evicts_in_order(was, size, t, out, order);
    assert(evicts_in_order(was, size, t, out, order));
}

} // verus!
