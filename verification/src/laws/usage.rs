//! Sizes, and the marks of use that eviction goes by.

use crate::align::{lemma_aligned_down, lemma_aligned_gap};
use crate::changes::{lemma_lengths, lemma_sizes_add_up};
use crate::laws::contents::law_match_keeps_contents;
use crate::matching::{lemma_after_insert, lemma_after_match, lemma_matched_place};
use crate::model::{CacheModel, Token, ROOT};
use crate::sums::sum_below;
use crate::trie::{
    lemma_page_fits, lemma_prefix_pair, lemma_prefix_self, lemma_prefix_trans, lemma_take_is_prefix,
};
use vstd::arithmetic::div_mod::{lemma_add_mod_noop, lemma_small_mod};
use vstd::prelude::*;

verus! {

/// Each cached token is either evictable or protected.
pub proof fn law_sizes_add_up(m: CacheModel)
    requires
        m.wf(),
    ensures
        m.evictable_size() + m.protected_size() == m.total_size(),
        m.evictable_size() >= 0,
        m.protected_size() >= 0,
{
    lemma_sizes_add_up(m);
}

/// A sum of whole pages is whole pages.
proof fn lemma_sum_of_pages(f: spec_fn(int) -> int, n: nat, page: int)
    requires
        page > 0,
        forall|i: int| 0 <= i < n ==> #[trigger] f(i) % page == 0,
    ensures
        sum_below(f, n) % page == 0,
    decreases n,
{
    if n > 0 {
        lemma_sum_of_pages(f, (n - 1) as nat, page);
        lemma_add_mod_noop(sum_below(f, (n - 1) as nat), f(n - 1), page);
        assert(f(n - 1) % page == 0);
        lemma_small_mod(0, page as nat);
    } else {
        lemma_small_mod(0, page as nat);
    }
}

/// The sizes are whole pages.
pub proof fn law_sizes_are_whole_pages(m: CacheModel)
    requires
        m.wf(),
    ensures
        m.evictable_size() % (m.page_size as int) == 0,
        m.protected_size() % (m.page_size as int) == 0,
        m.total_size() % (m.page_size as int) == 0,
{
    let page = m.page_size as int;
    let all = |i: int| m.token_count(i);
    let free = |i: int| m.evictable_count(i);
    let held = |i: int| m.protected_count(i);
    assert forall|i: int| 0 <= i < m.nodes.len() implies #[trigger] all(i) % page == 0 && free(i)
        % page == 0 && held(i) % page == 0 by {
        lemma_small_mod(0, m.page_size);
        if i != ROOT {
            lemma_page_fits(m, i);
        }
    }
    assert forall|i: int| 0 <= i < m.nodes.len() implies #[trigger] free(i) % page == 0 by {
        let x = all(i);
    }
    assert forall|i: int| 0 <= i < m.nodes.len() implies #[trigger] held(i) % page == 0 by {
        let x = all(i);
    }
    lemma_sum_of_pages(all, m.nodes.len(), page);
    lemma_sum_of_pages(free, m.nodes.len(), page);
    lemma_sum_of_pages(held, m.nodes.len(), page);
}

/// A match changes no size.
pub proof fn law_match_sizes(m: CacheModel, input: Seq<Token>)
    requires
        m.wf(),
    ensures
        m.after_match(input).evictable_size() == m.evictable_size(),
        m.after_match(input).protected_size() == m.protected_size(),
        m.after_match(input).total_size() == m.total_size(),
{
    lemma_after_match(m, input);
    assert(m.after_match(input).sizes() == m.sizes());
}

/// An insertion adds the tokens that were not cached to the evictable size.
pub proof fn law_insert_sizes(m: CacheModel, input: Seq<Token>, indices: Seq<Token>)
    requires
        m.wf(),
        input.len() == indices.len(),
    ensures
        ({
            let t = m.after_insert(input, indices);
            let len = m.insert_len(input.len());
            let added = len - m.matched_len(input.take(len as int));
            &&& added >= 0
            &&& t.evictable_size() == m.evictable_size() + added
            &&& t.protected_size() == m.protected_size()
            &&& t.total_size() == m.total_size() + added
        }),
{
    lemma_after_insert(m, input, indices);
}

/// An insertion takes at most two ticks of the clock. It fits where there is room for those, and
/// for the tokens.
pub proof fn law_insert_fits(m: CacheModel, input: Seq<Token>, indices: Seq<Token>)
    requires
        m.wf(),
        input.len() == indices.len(),
        m.clock + 2 <= u64::MAX,
        m.total_size() + input.len() <= usize::MAX,
    ensures
        m.after_insert(input, indices).fits(),
        m.clock < m.after_insert(input, indices).clock <= m.clock + 2,
{
    lemma_after_insert(m, input, indices);
}

/// A match marks the nodes that the matched part runs through as used now, which is later than
/// any use before, and leaves the marks of all others.
pub proof fn law_match_marks_use(m: CacheModel, input: Seq<Token>, i: int)
    requires
        m.wf(),
        i != ROOT,
        m.after_match(input).live(i),
    ensures
        ({
            let t = m.after_match(input);
            if t.prefix(i).is_prefix_of(m.matched(input)) {
                t.nodes[i].timestamp == m.clock
            } else {
                &&& i < m.nodes.len()
                &&& t.nodes[i].timestamp == m.nodes[i].timestamp
                &&& t.nodes[i].timestamp < m.clock
            }
        }),
{
    let t = m.after_match(input);
    let s = m.matched(input);
    let u = m.touch(s);
    lemma_matched_place(m, input);
    if i < m.nodes.len() {
        assert(m.node_ok(i));
        let y = u.nodes[i];
    } else {
        let n = m.node_over(s);
        assert(t.prefix(i) =~= s);
        lemma_prefix_self(s);
    }
}

/// An insertion marks the nodes that end runs of pages of the input as used now, which is later
/// than any use before, and leaves the marks of all others.
pub proof fn law_insert_marks_use(m: CacheModel, input: Seq<Token>, indices: Seq<Token>, i: int)
    requires
        m.wf(),
        input.len() == indices.len(),
        i != ROOT,
        m.after_insert(input, indices).live(i),
    ensures
        ({
            let t = m.after_insert(input, indices);
            if t.prefix(i).is_prefix_of(input) {
                t.nodes[i].timestamp >= m.clock
            } else {
                &&& i < m.nodes.len()
                &&& t.nodes[i].timestamp == m.nodes[i].timestamp
                &&& t.nodes[i].timestamp < m.clock
            }
        }),
{
    let t = m.after_insert(input, indices);
    let len = m.insert_len(input.len());
    let s = input.take(len as int);
    let u = m.after_match(s);
    lemma_after_insert(m, input, indices);
    lemma_after_match(m, s);
    lemma_matched_place(m, s);
    lemma_take_is_prefix(input, len as int);
    if i < u.nodes.len() {
        assert(t.nodes[i] == u.nodes[i]);
        law_match_marks_use(m, s, i);
        lemma_lengths(u, i);
        if u.prefix(i).is_prefix_of(m.matched(s)) {
            lemma_take_is_prefix(s, m.matched_len(s) as int);
            lemma_prefix_trans(u.prefix(i), m.matched(s), s);
            lemma_prefix_trans(u.prefix(i), s, input);
        } else if u.prefix(i).is_prefix_of(input) {
            // What the input starts with is matched as far as it is cached.
            lemma_prefix_self(u.prefix(i));
            let q = u.prefix(i);
            assert(u.live(i) && q.is_prefix_of(u.prefix(i)));
            assert(q.len() % u.page_size == 0);
            assert(u.holds(q));
            law_match_keeps_contents(m, s, q);
            lemma_aligned_down(input.len(), m.page_size);
            if q.len() > len {
                lemma_aligned_gap(len, q.len(), m.page_size);
            }
            lemma_prefix_pair(q, s, input);
            assert(s.take(q.len() as int) =~= q);
            assert(m.covers(s, q.len()));
            assert(m.matched(s).take(q.len() as int) =~= q);
            lemma_take_is_prefix(m.matched(s), q.len() as int);
        }
    } else {
        assert(t.prefix(i) == s);
    }
}

} // verus!
