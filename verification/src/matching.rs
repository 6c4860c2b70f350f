//! What matching and insertion leave behind.

use crate::align::{lemma_aligned_down, lemma_aligned_gap};
use crate::changes::{lemma_add_leaf, lemma_split, lemma_touch};
use crate::lookup::{lemma_matched_len, lemma_node_over_edge, lemma_node_over_end};
use crate::model::{CacheModel, Token, ROOT};
use crate::trie::{lemma_page_fits, lemma_prefix_pair};
use vstd::prelude::*;

verus! {

/// What is cached of the input ends at a node or inside one.
pub proof fn lemma_matched_place(m: CacheModel, input: Seq<Token>)
    requires
        m.wf(),
    ensures
        ({
            let s = m.matched(input);
            let i = m.node_over(s);
            &&& m.is_longest_match(input, m.matched_len(input))
            &&& s.len() == m.matched_len(input)
            &&& s.len() % m.page_size == 0
            &&& m.live(i)
            &&& if m.has_end(s) {
                m.ends_at(i, s)
            } else {
                m.runs_over(i, s) && i != ROOT
            }
        }),
{
    lemma_matched_len(m, input);
    let s = m.matched(input);
    if m.has_end(s) {
        let i = choose|i: int| #[trigger] m.ends_at(i, s);
        lemma_node_over_end(m, i, s);
    } else {
        let i = choose|i: int| #[trigger] m.live(i) && s.is_prefix_of(m.prefix(i));
        let j = lemma_running_over(m, i, s);
        lemma_node_over_edge(m, j, s);
    }
}

/// On the way to a node that starts with `s`, some node ends after `s` or runs over its end.
proof fn lemma_running_over(m: CacheModel, i: int, s: Seq<Token>) -> (j: int)
    requires
        m.wf(),
        m.live(i),
        s.is_prefix_of(m.prefix(i)),
        !m.has_end(s),
    ensures
        m.runs_over(j, s),
    decreases m.prefix(i).len(),
{
    assert(!m.ends_at(i, s));
    if s.len() == m.prefix(i).len() {
        assert(s =~= m.prefix(i));
    }
    assert(i != ROOT);
    assert(m.node_ok(i));
    let p = m.parent(i);
    if s.len() <= m.start(i) {
        lemma_prefix_pair(s, m.prefix(p), m.prefix(i));
        lemma_running_over(m, p, s)
    } else {
        i
    }
}

/// After a match the tree is in order, as large as before, and has a node that ends exactly
/// after the match, under which nothing goes on with the input.
pub proof fn lemma_after_match(m: CacheModel, input: Seq<Token>)
    requires
        m.wf(),
    ensures
        ({
            let t = m.after_match(input);
            let n = m.match_node(input);
            let s = m.matched(input);
            let l = s.len() as int;
            &&& t.wf()
            &&& t.page_size == m.page_size
            &&& t.clock == m.clock + 1
            &&& t.sizes() == m.sizes()
            &&& t.total_size() == m.total_size()
            &&& t.ends_at(n, s)
            &&& l + m.page_size <= input.len() ==> forall|c: int| #[trigger]
                t.live(c) && c != ROOT && t.parent(c) == n ==> t.page(c) != input.subrange(
                    l,
                    l + m.page_size,
                )
        }),
{
    let t = m.after_match(input);
    let n = m.match_node(input);
    let s = m.matched(input);
    let l = s.len() as int;
    let i = m.node_over(s);
    lemma_matched_place(m, input);
    lemma_touch(m, s);
    if !m.has_end(s) {
        let u = m.touch(s);
        assert(m.node_ok(i));
        let x = m.nodes[i];
        let y = m.nodes[m.parent(i)];
        assert(u.start(i) == m.start(i));
        lemma_split(u, i, l, m.clock);
        assert(t.prefix(n) =~= s);
    } else {
        let x = m.nodes[i];
    }
    if l + m.page_size <= input.len() {
        assert forall|c: int| #[trigger] t.live(c) && c != ROOT && t.parent(c) == n implies t.page(
            c,
        ) != input.subrange(l, l + m.page_size) by {
            if t.page(c) == input.subrange(l, l + m.page_size) {
                assert(t.node_ok(c));
                lemma_page_fits(t, c);
                let k = (l + m.page_size) as nat;
                let x = m.nodes[c];
                assert(m.live(c) && m.prefix(c) == t.prefix(c));
                assert forall|q: int| 0 <= q < k implies #[trigger] input.take(k as int)[q]
                    == m.prefix(c)[q] by {
                    if q < l {
                        assert(t.prefix(n)[q] == t.prefix(c).subrange(0, l)[q]);
                    } else {
                        assert(t.page(c)[q - l] == input.subrange(l, l + m.page_size)[q - l]);
                    }
                }
                assert(input.take(k as int) =~= m.prefix(c).subrange(0, k as int));
                vstd::arithmetic::div_mod::lemma_mod_add_multiples_vanish(l, m.page_size as int);
                assert(m.covers(input, k));
            }
        }
    }
}

/// After an insertion the tree is in order, and the tokens that were not cached are added to
/// the evictable ones.
pub proof fn lemma_after_insert(m: CacheModel, input: Seq<Token>, indices: Seq<Token>)
    requires
        m.wf(),
        input.len() == indices.len(),
    ensures
        ({
            let t = m.after_insert(input, indices);
            let n = m.insert_node(input);
            let len = m.insert_len(input.len());
            let s = input.take(len as int);
            let l = m.matched_len(s);
            &&& l <= len <= input.len()
            &&& len % m.page_size == 0
            &&& t.wf()
            &&& t.page_size == m.page_size
            &&& t.clock == m.clock + (if l == len {
                1int
            } else {
                2
            })
            &&& t.total_size() == m.total_size() + len - l
            &&& t.evictable_size() == m.evictable_size() + len - l
            &&& t.protected_size() == m.protected_size()
            &&& t.ends_at(n, s)
        }),
{
    let len = m.insert_len(input.len());
    let s = input.take(len as int);
    lemma_aligned_down(input.len(), m.page_size);
    lemma_after_match(m, s);
    lemma_matched_place(m, s);
    let l = m.matched_len(s);
    let a = m.after_match(s);
    let n = m.match_node(s);
    if l == len {
        assert(s.take(l as int) =~= s);
    } else {
        lemma_aligned_gap(l, len, m.page_size);
        assert(a.prefix(n) =~= s.subrange(0, a.prefix(n).len() as int));
        lemma_add_leaf(a, n, s, indices.subrange(l as int, len as int));
    }
}

} // verus!
