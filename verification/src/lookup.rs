//! How a walk along the tree finds the longest cached run of whole pages.

use crate::align::{aligned_down, lemma_aligned_down, lemma_aligned_gap, lemma_aligned_sum};
use crate::model::{CacheModel, Token, ROOT};
use crate::trie::{
    lemma_above, lemma_page_fits, lemma_path_prefix, lemma_prefix_pair, lemma_prefix_path,
    lemma_prefix_self, lemma_prefix_trans, lemma_same_prefix, lemma_step_down,
};
use vstd::prelude::*;

verus! {

/// The root covers the empty prefix.
proof fn lemma_covers_nothing(m: CacheModel, input: Seq<Token>)
    requires
        m.wf(),
    ensures
        m.covers(input, 0),
{
    assert(m.live(ROOT as int));
    assert(input.take(0) =~= m.prefix(ROOT as int));
    lemma_prefix_self(input.take(0));
    vstd::arithmetic::div_mod::lemma_small_mod(0, m.page_size);
}

/// Above some covered length there is a longest one.
proof fn lemma_longest_from(m: CacheModel, input: Seq<Token>, l: nat) -> (r: nat)
    requires
        m.covers(input, l),
    ensures
        m.is_longest_match(input, r),
    decreases input.len() - l,
{
    if exists|k: nat| k > l && #[trigger] m.covers(input, k) {
        let k = choose|k: nat| k > l && #[trigger] m.covers(input, k);
        lemma_longest_from(m, input, k)
    } else {
        l
    }
}

/// Every input has a longest match.
pub proof fn lemma_matched_len(m: CacheModel, input: Seq<Token>)
    requires
        m.wf(),
    ensures
        m.is_longest_match(input, m.matched_len(input)),
{
    lemma_covers_nothing(m, input);
    let r = lemma_longest_from(m, input, 0);
    assert(m.is_longest_match(input, r));
}

/// An input has no other longest match.
pub proof fn lemma_matched_len_is(m: CacheModel, input: Seq<Token>, l: nat)
    requires
        m.is_longest_match(input, l),
    ensures
        m.matched_len(input) == l,
{
    let r = m.matched_len(input);
    assert(m.is_longest_match(input, r));
    assert(m.covers(input, l));
    assert(m.covers(input, r));
}

/// The node that ends after `s` is the one that `node_over` means.
pub proof fn lemma_node_over_end(m: CacheModel, i: int, s: Seq<Token>)
    requires
        m.wf(),
        m.ends_at(i, s),
    ensures
        m.has_end(s),
        m.node_over(s) == i,
{
    let j = choose|j: int| #[trigger] m.ends_at(j, s);
    lemma_same_prefix(m, i, j);
}

/// Where `s` runs over a node, no other node ends after `s` or runs over it.
pub proof fn lemma_node_over_edge(m: CacheModel, i: int, s: Seq<Token>)
    requires
        m.wf(),
        m.runs_over(i, s),
        s.len() % m.page_size == 0,
    ensures
        !m.has_end(s),
        m.node_over(s) == i,
        i != ROOT,
{
    assert(i != ROOT);
    if m.has_end(s) {
        let j = choose|j: int| #[trigger] m.ends_at(j, s);
        lemma_above(m, j, i);
    }
    let j = choose|j: int| #[trigger] m.runs_over(j, s);
    assert(m.runs_over(j, s));
    if i != j {
        lemma_edges_meet(m, i, j, s);
    }
}

/// Two nodes that both run over `s` are the same.
proof fn lemma_edges_meet(m: CacheModel, i: int, j: int, s: Seq<Token>)
    requires
        m.wf(),
        m.runs_over(i, s),
        m.runs_over(j, s),
        s.len() % m.page_size == 0,
    ensures
        i == j,
{
    assert(i != ROOT && j != ROOT);
    assert(m.node_ok(i));
    assert(m.node_ok(j));
    let p = m.parent(i);
    let q = m.parent(j);
    lemma_prefix_pair(m.prefix(p), s, m.prefix(i));
    lemma_prefix_trans(m.prefix(p), s, m.prefix(j));
    lemma_prefix_pair(m.prefix(q), s, m.prefix(j));
    lemma_prefix_trans(m.prefix(q), s, m.prefix(i));
    lemma_above(m, p, j);
    lemma_above(m, q, i);
    lemma_prefix_pair(m.prefix(p), m.prefix(q), s);
    lemma_prefix_pair(m.prefix(q), m.prefix(p), s);
    lemma_same_prefix(m, p, q);
    // Both start with the page of `s` that follows `p`.
    lemma_page_fits(m, i);
    lemma_page_fits(m, j);
    let st = m.start(i);
    let pg = m.page_size as int;
    lemma_aligned_gap(st as nat, s.len(), m.page_size);
    assert forall|k: int| 0 <= k < pg implies m.page(i)[k] == m.page(j)[k] by {
        assert(s[st + k] == m.prefix(i).subrange(0, s.len() as int)[st + k]);
        assert(s[st + k] == m.prefix(j).subrange(0, s.len() as int)[st + k]);
    }
    assert(m.page(i) =~= m.page(j));
    assert(!m.clash(i, j));
}

/// The page of `input` after the first `l` tokens, or what is left of it.
pub open spec fn next_page(m: CacheModel, input: Seq<Token>, l: int) -> Seq<Token> {
    if input.len() - l < m.page_size {
        input.skip(l)
    } else {
        input.subrange(l, l + m.page_size)
    }
}

/// If more than `l` tokens of `input` are cached, a node under the one that ends after those
/// `l` tokens starts with the next page, and all that is cached goes on from it.
proof fn lemma_continues(m: CacheModel, node: int, input: Seq<Token>, l: nat, k: nat) -> (a: int)
    requires
        m.wf(),
        l <= input.len(),
        m.ends_at(node, input.take(l as int)),
        m.covers(input, k),
        k > l,
    ensures
        m.live(a),
        a != ROOT,
        m.parent(a) == node,
        m.page(a) == next_page(m, input, l as int),
        l + m.page_size <= k,
        k <= m.prefix(a).len() ==> input.take(k as int).is_prefix_of(m.prefix(a)),
        k > m.prefix(a).len() ==> m.prefix(a).is_prefix_of(input),
{
    let i = choose|i: int| #[trigger]
        m.live(i) && input.take(k as int).is_prefix_of(m.prefix(i));
    let s = input.take(l as int);
    let t = input.take(k as int);
    assert(s =~= t.subrange(0, s.len() as int));
    lemma_prefix_trans(s, t, m.prefix(i));
    lemma_prefix_path(m, node, i);
    let a = lemma_step_down(m, node, i);
    lemma_path_prefix(m, a, i);
    lemma_page_fits(m, a);
    if node != ROOT {
        assert(m.node_ok(node));
    } else {
        vstd::arithmetic::div_mod::lemma_small_mod(0, m.page_size);
    }
    lemma_aligned_gap(l, k, m.page_size);
    let pg = m.page_size as int;
    assert forall|x: int| 0 <= x < k && x < m.prefix(a).len() implies m.prefix(a)[x] == input[x] by {
        assert(m.prefix(a)[x] == m.prefix(i).subrange(0, m.prefix(a).len() as int)[x]);
        assert(t[x] == m.prefix(i).subrange(0, k as int)[x]);
    }
    assert(m.page(a) =~= input.subrange(l as int, l + pg));
    if k <= m.prefix(a).len() {
        assert(t =~= m.prefix(a).subrange(0, k as int));
    } else {
        assert(m.prefix(a) =~= input.subrange(0, m.prefix(a).len() as int));
    }
    a
}

/// A walk that has reached `node` after `l` tokens and finds no node under it that goes on
/// with the next page has found the longest match.
pub proof fn lemma_walk_stuck(m: CacheModel, node: int, input: Seq<Token>, l: nat)
    requires
        m.wf(),
        l <= input.len(),
        m.ends_at(node, input.take(l as int)),
        l == input.len() || forall|c: int| #[trigger]
            m.live(c) && c != ROOT && m.parent(c) == node ==> m.page(c) != next_page(
                m,
                input,
                l as int,
            ),
    ensures
        m.is_longest_match(input, l),
        m.matched_len(input) == l,
        m.has_end(input.take(l as int)),
        m.node_over(input.take(l as int)) == node,
{
    let s = input.take(l as int);
    lemma_prefix_self(s);
    if node != ROOT {
        assert(m.node_ok(node));
    } else {
        vstd::arithmetic::div_mod::lemma_small_mod(0, m.page_size);
    }
    assert(m.covers(input, l));
    assert forall|k: nat| #[trigger] m.covers(input, k) implies k <= l by {
        if k > l {
            let a = lemma_continues(m, node, input, l, k);
            assert(m.live(a));
        }
    }
    lemma_matched_len_is(m, input, l);
    lemma_node_over_end(m, node, s);
}

/// A walk that has reached `node` after `l` tokens, and goes on into `c` but leaves it after
/// `k` of its tokens, has found the longest match where the last whole page ends.
pub proof fn lemma_walk_edge(m: CacheModel, node: int, c: int, input: Seq<Token>, l: nat, k: nat)
    requires
        m.wf(),
        l <= input.len(),
        m.ends_at(node, input.take(l as int)),
        m.live(c),
        c != ROOT,
        m.parent(c) == node,
        m.page(c) == next_page(m, input, l as int),
        k < m.key_len(c),
        l + k <= input.len(),
        m.key(c).take(k as int) == input.subrange(l as int, (l + k) as int),
        l + k < input.len() ==> m.key(c)[k as int] != input[(l + k) as int],
    ensures
        ({
            let d = aligned_down(k, m.page_size);
            let s = input.take((l + d) as int);
            &&& 0 < d < m.key_len(c)
            &&& (l + d) % m.page_size as nat == 0
            &&& m.is_longest_match(input, l + d)
            &&& m.matched_len(input) == l + d
            &&& m.runs_over(c, s)
            &&& !m.has_end(s)
            &&& m.node_over(s) == c
        }),
{
    let pg = m.page_size;
    let d = aligned_down(k, pg);
    let s = input.take((l + d) as int);
    lemma_aligned_down(k, pg);
    lemma_page_fits(m, c);
    assert(m.node_ok(c));
    assert(m.start(c) == l);
    // The whole first page agrees, so at least one page is matched.
    assert(input.len() - l >= pg) by {
        if input.len() - l < pg {
            assert(m.page(c).len() == pg);
        }
    }
    assert(k >= pg) by {
        if k < pg {
            assert(m.page(c)[k as int] == m.key(c)[k as int]);
            assert(m.page(c)[k as int] == input[(l + k) as int]);
        }
    }
    if d == 0 {
        lemma_aligned_gap(0, k, pg);
    }
    lemma_aligned_sum(l, d, pg);
    assert forall|x: int| 0 <= x < l + k implies #[trigger] m.prefix(c)[x] == input[x] by {
        if x < l {
            assert(m.prefix(node)[x] == m.prefix(c).subrange(0, l as int)[x]);
            assert(input.take(l as int)[x] == input[x]);
            assert(m.prefix(c)[x] == input[x]);
        } else {
            let y = x - l;
            assert(m.key(c).take(k as int)[y] == input.subrange(l as int, (l + k) as int)[y]);
            assert(m.key(c)[y] == m.prefix(c)[x]);
            assert(m.key(c).take(k as int)[y] == m.key(c)[y]);
            assert(input.subrange(l as int, (l + k) as int)[y] == input[x]);
        }
    }
    assert(s =~= m.prefix(c).subrange(0, s.len() as int));
    assert(m.runs_over(c, s));
    lemma_node_over_edge(m, c, s);
    assert(m.covers(input, l + d));
    assert forall|j: nat| #[trigger] m.covers(input, j) implies j <= l + d by {
        if j > l + d {
            let a = lemma_continues(m, node, input, l, j);
            assert(!m.clash(a, c));
            assert(a == c);
            lemma_aligned_gap(l + d, j, pg);
            assert(j > l + k);
            if j <= m.prefix(c).len() {
                assert(input.take(j as int)[(l + k) as int] == m.prefix(c).subrange(
                    0,
                    j as int,
                )[(l + k) as int]);
            } else {
                assert(m.prefix(c)[(l + k) as int] == input.subrange(
                    0,
                    m.prefix(c).len() as int,
                )[(l + k) as int]);
            }
            assert(m.key(c)[k as int] == m.prefix(c)[(l + k) as int]);
        }
    }
    lemma_matched_len_is(m, input, l + d);
}

/// A walk that has reached `node` after `l` tokens, and finds all tokens of `c` next, reaches
/// `c`.
pub proof fn lemma_walk_on(m: CacheModel, node: int, c: int, input: Seq<Token>, l: nat)
    requires
        m.wf(),
        l <= input.len(),
        m.ends_at(node, input.take(l as int)),
        m.live(c),
        c != ROOT,
        m.parent(c) == node,
        l + m.key_len(c) <= input.len(),
        m.key(c) == input.subrange(l as int, l + m.key_len(c)),
    ensures
        m.ends_at(c, input.take(l + m.key_len(c))),
{
    assert(m.node_ok(c));
    let t = input.take(l + m.key_len(c));
    assert forall|x: int| 0 <= x < t.len() implies m.prefix(c)[x] == t[x] by {
        if x < l {
            assert(m.prefix(node)[x] == m.prefix(c).subrange(0, l as int)[x]);
            assert(input.take(l as int)[x] == input[x]);
        } else {
            assert(m.key(c)[x - l] == input.subrange(l as int, l + m.key_len(c))[x - l]);
        }
    }
    assert(m.prefix(c) =~= t);
}

} // verus!
