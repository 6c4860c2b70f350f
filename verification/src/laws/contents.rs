//! What the cache holds, and what the operations do to it.

use crate::align::{lemma_aligned_down, lemma_aligned_gap};
use crate::changes::{lemma_lengths, lemma_touch};
use crate::laws::listing::lemma_same_dump;
use crate::lookup::{
    lemma_matched_len, lemma_matched_len_is, lemma_node_over_edge, lemma_node_over_end,
};
use crate::matching::{lemma_after_insert, lemma_after_match, lemma_matched_place};
use crate::model::{empty_cache, CacheModel, Token, ROOT};
use crate::sums::sum_below;
use crate::trie::{
    lemma_page_fits, lemma_path_prefix, lemma_prefix_pair, lemma_prefix_self, lemma_prefix_trans,
    lemma_same_prefix, lemma_take_is_prefix,
};
use vstd::prelude::*;

verus! {

/// No two nodes of the tree end the same prefix.
pub proof fn law_one_node_per_prefix(m: CacheModel, i: int, j: int)
    requires
        m.wf(),
        m.live(i),
        m.live(j),
        m.prefix(i) == m.prefix(j),
    ensures
        i == j,
{
    lemma_same_prefix(m, i, j);
}

/// Every node but the root holds tokens, in whole pages, and one cache index for each.
pub proof fn law_whole_pages(m: CacheModel, i: int)
    requires
        m.wf(),
        0 < i < m.nodes.len(),
    ensures
        m.key_len(i) > 0,
        m.key_len(i) % (m.page_size as int) == 0,
        m.key(i).len() == m.key_len(i),
        m.value(i).len() == m.key_len(i),
{
    assert(m.node_ok(i));
    lemma_page_fits(m, i);
    lemma_lengths(m, i);
}

/// Whatever is a run of whole pages at the start of something cached is cached.
pub proof fn law_prefixes_are_held(m: CacheModel, s: Seq<Token>, r: Seq<Token>)
    requires
        m.holds(s),
        r.is_prefix_of(s),
        r.len() % m.page_size == 0,
    ensures
        m.holds(r),
{
    let i = choose|i: int| #[trigger] m.live(i) && s.is_prefix_of(m.prefix(i));
    lemma_prefix_trans(r, s, m.prefix(i));
    assert(m.live(i) && r.is_prefix_of(m.prefix(i)));
}

/// What is matched is whole pages, is cached, and nothing longer of the input is.
pub proof fn law_longest_match(m: CacheModel, input: Seq<Token>, l: nat)
    requires
        m.wf(),
    ensures
        m.matched_len(input) <= input.len(),
        m.matched_len(input) % m.page_size == 0,
        m.holds(m.matched(input)),
        m.covers(input, l) ==> l <= m.matched_len(input),
{
    lemma_matched_len(m, input);
}

/// The tokens after the last whole page make no difference.
pub proof fn law_tail_is_ignored(m: CacheModel, input: Seq<Token>)
    requires
        m.wf(),
    ensures
        m.matched_len(input) == m.matched_len(input.take(m.insert_len(input.len()) as int)),
        m.matched(input) == m.matched(input.take(m.insert_len(input.len()) as int)),
{
    let len = m.insert_len(input.len());
    lemma_aligned_down(input.len(), m.page_size);
    let s = input.take(len as int);
    lemma_matched_len(m, input);
    let l = m.matched_len(input);
    if l > len {
        lemma_aligned_gap(len, l, m.page_size);
    }
    assert forall|k: nat| k <= len implies #[trigger] m.covers(s, k) == m.covers(input, k) by {
        assert(s.take(k as int) =~= input.take(k as int));
    }
    assert(m.is_longest_match(s, l)) by {
        assert(m.covers(s, l));
        assert forall|k: nat| #[trigger] m.covers(s, k) implies k <= l by {
            assert(m.covers(input, k));
        }
    }
    lemma_matched_len_is(m, s, l);
    assert(input.take(l as int) =~= s.take(l as int));
}

/// The node that ends after `s`, or that `s` ends in, is on the way to every node that goes on
/// from `s`.
proof fn lemma_over_above(m: CacheModel, s: Seq<Token>, i: int)
    requires
        m.wf(),
        m.live(i),
        s.is_prefix_of(m.prefix(i)),
        s.len() % m.page_size == 0,
    ensures
        m.live(m.node_over(s)),
        s.is_prefix_of(m.prefix(m.node_over(s))),
        m.nodes[m.node_over(s)].indices.is_prefix_of(m.nodes[i].indices),
    decreases m.prefix(i).len(),
{
    lemma_lengths(m, i);
    if s.len() == m.prefix(i).len() {
        assert(s =~= m.prefix(i));
        lemma_node_over_end(m, i, s);
        lemma_prefix_self(m.nodes[i].indices);
    } else if i != ROOT && m.start(i) < s.len() {
        assert(m.runs_over(i, s));
        lemma_node_over_edge(m, i, s);
        lemma_prefix_self(m.nodes[i].indices);
    } else {
        assert(i != ROOT);
        assert(m.node_ok(i));
        let p = m.parent(i);
        lemma_prefix_pair(s, m.prefix(p), m.prefix(i));
        lemma_over_above(m, s, p);
        lemma_prefix_trans(
            m.nodes[m.node_over(s)].indices,
            m.nodes[p].indices,
            m.nodes[i].indices,
        );
    }
}

/// All nodes that go on from `s` give it the same cache indices.
pub proof fn law_indices_agree(m: CacheModel, s: Seq<Token>, i: int)
    requires
        m.wf(),
        m.live(i),
        s.is_prefix_of(m.prefix(i)),
        s.len() % m.page_size == 0,
    ensures
        m.holds(s),
        m.indices_for(s) == m.nodes[i].indices.take(s.len() as int),
        m.indices_for(s).len() == s.len(),
{
    lemma_over_above(m, s, i);
    let k = m.node_over(s);
    lemma_lengths(m, k);
    lemma_lengths(m, i);
    let a = m.nodes[k].indices;
    let b = m.nodes[i].indices;
    assert forall|j: int| 0 <= j < s.len() implies a[j] == b[j] by {
        assert(a[j] == b.subrange(0, a.len() as int)[j]);
    }
    assert(a.take(s.len() as int) =~= b.take(s.len() as int));
}

/// There is one cache index for each cached token, and a run of whole pages at the start of
/// something cached has the first of its indices.
pub proof fn law_indices_of_prefix(m: CacheModel, s: Seq<Token>, r: Seq<Token>)
    requires
        m.wf(),
        m.holds(s),
        r.is_prefix_of(s),
        r.len() % m.page_size == 0,
    ensures
        m.indices_for(s).len() == s.len(),
        m.indices_for(r) == m.indices_for(s).take(r.len() as int),
{
    let i = choose|i: int| #[trigger] m.live(i) && s.is_prefix_of(m.prefix(i));
    law_indices_agree(m, s, i);
    lemma_prefix_trans(r, s, m.prefix(i));
    law_indices_agree(m, r, i);
    lemma_lengths(m, i);
    let b = m.nodes[i].indices;
    assert(b.take(r.len() as int) =~= b.take(s.len() as int).take(r.len() as int));
}

/// Whether all nodes of `a` are nodes of `b`, where they hold the same. They may hang under
/// other nodes there, and may have been used or locked.
pub open spec fn nodes_kept(a: CacheModel, b: CacheModel) -> bool {
    &&& a.page_size == b.page_size
    &&& a.nodes.len() <= b.nodes.len()
    &&& forall|i: int|
        0 <= i < a.nodes.len() ==> {
            let x = #[trigger] a.nodes[i];
            let y = b.nodes[i];
            &&& x.prefix == y.prefix
            &&& x.indices == y.indices
            &&& x.alive == y.alive
        }
}

/// Kept nodes keep what is cached, and its indices.
proof fn lemma_kept_contents(a: CacheModel, b: CacheModel, s: Seq<Token>)
    requires
        a.wf(),
        b.wf(),
        nodes_kept(a, b),
        a.holds(s),
    ensures
        b.holds(s),
        b.indices_for(s) == a.indices_for(s),
{
    let i = choose|i: int| #[trigger] a.live(i) && s.is_prefix_of(a.prefix(i));
    let x = a.nodes[i];
    assert(b.live(i));
    law_indices_agree(a, s, i);
    law_indices_agree(b, s, i);
}

/// A match keeps all nodes, and makes at most one: part of the way to one that was there.
pub proof fn lemma_match_nodes(m: CacheModel, input: Seq<Token>)
    requires
        m.wf(),
    ensures
        ({
            let t = m.after_match(input);
            &&& nodes_kept(m, t)
            &&& t.nodes.len() <= m.nodes.len() + 1
            &&& t.nodes.len() > m.nodes.len() ==> {
                let n = m.node_over(m.matched(input));
                &&& m.live(n)
                &&& t.prefix(m.nodes.len() as int).is_prefix_of(m.prefix(n))
            }
        }),
{
    lemma_matched_place(m, input);
    let s = m.matched(input);
    let t = m.after_match(input);
    let touched = m.touch(s);
    assert(nodes_kept(m, touched));
    if !m.has_end(s) {
        let n = m.node_over(s);
        lemma_take_is_prefix(m.prefix(n), s.len() as int);
        assert forall|i: int| 0 <= i < m.nodes.len() implies {
            let x = #[trigger] m.nodes[i];
            let y = t.nodes[i];
            x.prefix == y.prefix && x.indices == y.indices && x.alive == y.alive
        } by {
            let z = touched.nodes[i];
        }
    }
}

/// A match does not change what is cached: the same runs of pages are, with the same indices.
pub proof fn law_match_keeps_contents(m: CacheModel, input: Seq<Token>, s: Seq<Token>)
    requires
        m.wf(),
    ensures
        m.after_match(input).holds(s) == m.holds(s),
        m.holds(s) ==> m.after_match(input).indices_for(s) == m.indices_for(s),
{
    let t = m.after_match(input);
    lemma_after_match(m, input);
    lemma_match_nodes(m, input);
    if m.holds(s) {
        lemma_kept_contents(m, t, s);
    }
    if t.holds(s) {
        let i = choose|i: int| #[trigger] t.live(i) && s.is_prefix_of(t.prefix(i));
        if i < m.nodes.len() {
            let x = m.nodes[i];
            assert(m.live(i));
        } else {
            let n = m.node_over(m.matched(input));
            lemma_prefix_trans(s, t.prefix(i), m.prefix(n));
            assert(m.live(n));
        }
    }
}

/// Caches that hold the same find the same.
proof fn lemma_same_matches(a: CacheModel, b: CacheModel, input: Seq<Token>)
    requires
        a.wf(),
        b.wf(),
        forall|s: Seq<Token>| #[trigger] a.holds(s) == b.holds(s),
    ensures
        a.matched_len(input) == b.matched_len(input),
        a.matched(input) == b.matched(input),
{
    lemma_matched_len(a, input);
    let l = a.matched_len(input);
    assert(b.is_longest_match(input, l)) by {
        assert(a.covers(input, l));
        assert(b.covers(input, l));
        assert forall|k: nat| #[trigger] b.covers(input, k) implies k <= l by {
            assert(a.covers(input, k));
        }
    }
    lemma_matched_len_is(b, input, l);
}

/// After a match every lookup finds what it found before.
pub proof fn law_lookup_after_match(m: CacheModel, input: Seq<Token>, query: Seq<Token>)
    requires
        m.wf(),
    ensures
        m.after_match(input).matched_len(query) == m.matched_len(query),
        m.after_match(input).indices_for(m.matched(query)) == m.indices_for(m.matched(query)),
{
    lemma_after_match(m, input);
    let t = m.after_match(input);
    assert forall|s: Seq<Token>| #[trigger] t.holds(s) == m.holds(s) by {
        law_match_keeps_contents(m, input, s);
    }
    lemma_same_matches(m, t, query);
    lemma_matched_len(m, query);
    law_match_keeps_contents(m, input, m.matched(query));
}

/// The handle of a match gives the indices that a lookup gives.
pub proof fn law_match_reads_like_lookup(m: CacheModel, input: Seq<Token>)
    requires
        m.wf(),
    ensures
        ({
            let t = m.after_match(input);
            let n = m.match_node(input);
            let l = m.matched_len(input) as int;
            &&& t.ends_at(n, m.matched(input))
            &&& t.readable(n, l)
            &&& t.indices_of(n, l) == m.indices_for(m.matched(input))
        }),
{
    let t = m.after_match(input);
    let n = m.match_node(input);
    let s = m.matched(input);
    lemma_matched_len(m, input);
    lemma_after_match(m, input);
    lemma_live_readable(t, n, s.len() as int);
    lemma_prefix_self(s);
    law_indices_agree(t, s, n);
    law_match_keeps_contents(m, input, s);
    lemma_lengths(t, n);
    assert(t.nodes[n].indices =~= t.nodes[n].indices.take(s.len() as int));
}

/// What a node of the tree holds can be read.
pub proof fn lemma_live_readable(m: CacheModel, n: int, len: int)
    requires
        m.wf(),
        m.live(n),
    ensures
        m.readable(n, len),
{
    assert forall|a: int| #[trigger] m.on_path(a, n) implies m.nodes[a].alive by {
        lemma_path_prefix(m, a, n);
    }
}

/// A second match of the same input ends at the same node, divides none, and changes nothing
/// that a dump shows.
pub proof fn law_match_again(m: CacheModel, input: Seq<Token>)
    requires
        m.wf(),
    ensures
        ({
            let t = m.after_match(input);
            &&& t.match_node(input) == m.match_node(input)
            &&& t.matched_len(input) == m.matched_len(input)
            &&& t.after_match(input).nodes.len() == t.nodes.len()
            &&& t.after_match(input).dump() == t.dump()
        }),
{
    let t = m.after_match(input);
    lemma_after_match(m, input);
    law_lookup_after_match(m, input, input);
    lemma_node_over_end(t, m.match_node(input), m.matched(input));
    lemma_touch(t, t.matched(input));
    lemma_same_dump(t, t.touch(t.matched(input)), t.nodes.len());
}

/// An insertion keeps all nodes. Beyond those that a match makes, it makes the leaf that ends
/// the inserted prefix.
pub proof fn lemma_insert_nodes(m: CacheModel, input: Seq<Token>, indices: Seq<Token>)
    requires
        m.wf(),
        input.len() == indices.len(),
    ensures
        ({
            let t = m.after_insert(input, indices);
            let len = m.insert_len(input.len());
            let s = input.take(len as int);
            let matched = m.after_match(s);
            &&& nodes_kept(m, t)
            &&& nodes_kept(matched, t)
            &&& t.nodes.len() <= matched.nodes.len() + 1
            &&& t.nodes.len() > matched.nodes.len() ==> t.prefix(matched.nodes.len() as int) == s
        }),
{
    let t = m.after_insert(input, indices);
    let s = input.take(m.insert_len(input.len()) as int);
    let matched = m.after_match(s);
    lemma_match_nodes(m, s);
    assert(nodes_kept(matched, t));
    assert forall|i: int| 0 <= i < m.nodes.len() implies {
        let x = #[trigger] m.nodes[i];
        let y = t.nodes[i];
        x.prefix == y.prefix && x.indices == y.indices && x.alive == y.alive
    } by {
        let z = matched.nodes[i];
    }
}

/// An insertion keeps what was cached, with the indices that it had.
pub proof fn law_insert_keeps_contents(
    m: CacheModel,
    input: Seq<Token>,
    indices: Seq<Token>,
    s: Seq<Token>,
)
    requires
        m.wf(),
        input.len() == indices.len(),
        m.holds(s),
    ensures
        m.after_insert(input, indices).holds(s),
        m.after_insert(input, indices).indices_for(s) == m.indices_for(s),
{
    lemma_after_insert(m, input, indices);
    lemma_insert_nodes(m, input, indices);
    lemma_kept_contents(m, m.after_insert(input, indices), s);
}

/// After an insertion exactly what was cached before is cached, and all runs of pages at the
/// start of the input.
pub proof fn law_insert_adds_the_input(
    m: CacheModel,
    input: Seq<Token>,
    indices: Seq<Token>,
    s: Seq<Token>,
)
    requires
        m.wf(),
        input.len() == indices.len(),
    ensures
        m.after_insert(input, indices).holds(s) == (m.holds(s) || (s.len() % m.page_size == 0
            && s.is_prefix_of(input))),
{
    let t = m.after_insert(input, indices);
    let len = m.insert_len(input.len());
    let whole = input.take(len as int);
    let matched = m.after_match(whole);
    lemma_after_insert(m, input, indices);
    lemma_insert_nodes(m, input, indices);
    lemma_take_is_prefix(input, len as int);
    if m.holds(s) {
        lemma_kept_contents(m, t, s);
    }
    if s.len() % m.page_size == 0 && s.is_prefix_of(input) {
        lemma_aligned_down(input.len(), m.page_size);
        if s.len() > len {
            lemma_aligned_gap(len, s.len(), m.page_size);
        }
        lemma_prefix_pair(s, whole, input);
        assert(t.live(m.insert_node(input)));
    }
    if t.holds(s) {
        let i = choose|i: int| #[trigger] t.live(i) && s.is_prefix_of(t.prefix(i));
        if i < matched.nodes.len() {
            let x = matched.nodes[i];
            assert(matched.live(i));
            assert(matched.holds(s));
            law_match_keeps_contents(m, whole, s);
        } else {
            lemma_prefix_trans(s, whole, input);
        }
    }
}

/// What was inserted is found: all whole pages of the input, with the indices that were there
/// before for what was cached before, and with those inserted for the rest. The handle that the
/// insertion gives reads the same.
pub proof fn law_insert_then_lookup(m: CacheModel, input: Seq<Token>, indices: Seq<Token>)
    requires
        m.wf(),
        input.len() == indices.len(),
    ensures
        ({
            let t = m.after_insert(input, indices);
            let n = m.insert_node(input);
            let len = m.insert_len(input.len()) as int;
            let l = m.matched_len(input) as int;
            let found = m.indices_for(m.matched(input)) + indices.subrange(l, len);
            &&& t.matched_len(input) == len
            &&& t.indices_for(t.matched(input)) == found
            &&& t.ends_at(n, input.take(len))
            &&& t.readable(n, len)
            &&& t.indices_of(n, len) == found
        }),
{
    let t = m.after_insert(input, indices);
    let n = m.insert_node(input);
    let len = m.insert_len(input.len());
    let s = input.take(len as int);
    let l = m.matched_len(s);
    let matched = m.after_match(s);
    lemma_after_insert(m, input, indices);
    law_tail_is_ignored(m, input);
    law_tail_is_ignored(t, input);
    lemma_prefix_self(s);
    law_insert_adds_the_input(m, input, indices, s);
    lemma_take_is_prefix(input, len as int);
    // All of it is found.
    assert(t.is_longest_match(s, len)) by {
        assert(s.take(len as int) =~= s);
    }
    lemma_matched_len_is(t, s, len);
    assert(s.take(len as int) =~= s);
    // The indices.
    lemma_lengths(t, n);
    law_indices_agree(t, s, n);
    assert(t.nodes[n].indices =~= t.nodes[n].indices.take(len as int));
    lemma_matched_len(m, s);
    lemma_after_match(m, s);
    let n0 = m.match_node(s);
    law_match_reads_like_lookup(m, s);
    lemma_lengths(matched, n0);
    assert(matched.nodes[n0].indices =~= matched.nodes[n0].indices.take(l as int));
    if l == len {
        assert(m.matched(s) =~= s);
        assert(t.nodes[n].indices =~= m.indices_for(m.matched(input)) + indices.subrange(
            l as int,
            len as int,
        ));
    }
    lemma_live_readable(t, n, len as int);
}

/// A second insertion of the same input finds all of it, ends at the same node, makes none, and
/// changes nothing that a dump shows.
pub proof fn law_insert_again(
    m: CacheModel,
    input: Seq<Token>,
    indices: Seq<Token>,
    others: Seq<Token>,
)
    requires
        m.wf(),
        input.len() == indices.len(),
    ensures
        ({
            let t = m.after_insert(input, indices);
            let len = m.insert_len(input.len());
            &&& t.matched_len(input.take(len as int)) == len
            &&& t.insert_node(input) == m.insert_node(input)
            &&& t.after_insert(input, others).nodes.len() == t.nodes.len()
            &&& t.after_insert(input, others).dump() == t.dump()
        }),
{
    let t = m.after_insert(input, indices);
    let s = input.take(m.insert_len(input.len()) as int);
    lemma_after_insert(m, input, indices);
    law_insert_then_lookup(m, input, indices);
    law_tail_is_ignored(t, input);
    assert(t.matched(s) =~= s);
    lemma_node_over_end(t, m.insert_node(input), s);
    lemma_touch(t, s);
    lemma_same_dump(t, t.touch(s), t.nodes.len());
}

/// An empty cache holds nothing but the empty run.
pub proof fn law_empty_cache(page_size: nat, input: Seq<Token>)
    requires
        page_size > 0,
    ensures
        ({
            let m = empty_cache(page_size);
            &&& m.wf()
            &&& m.matched_len(input) == 0
            &&& m.evictable_size() == 0
            &&& m.protected_size() == 0
            &&& m.drainable_size() == 0
        }),
{
    let m = empty_cache(page_size);
    assert(m.wf());
    lemma_matched_len(m, input);
    let i = choose|i: int| #[trigger] m.live(i) && m.matched(input).is_prefix_of(m.prefix(i));
    assert(m.matched(input).len() == 0);
    reveal_with_fuel(sum_below, 2);
}

/// The cache indices that a handle to a node of the tree stands for stay the same under a match.
pub proof fn law_match_keeps_handles(m: CacheModel, input: Seq<Token>, n: int, len: int)
    requires
        m.wf(),
        m.live(n),
    ensures
        m.after_match(input).live(n),
        m.after_match(input).prefix(n) == m.prefix(n),
        m.after_match(input).readable(n, len),
        m.after_match(input).indices_of(n, len) == m.indices_of(n, len),
{
    lemma_after_match(m, input);
    lemma_match_nodes(m, input);
    let x = m.nodes[n];
    lemma_live_readable(m.after_match(input), n, len);
}

/// The cache indices that a handle to a node of the tree stands for stay the same under an
/// insertion.
pub proof fn law_insert_keeps_handles(
    m: CacheModel,
    input: Seq<Token>,
    indices: Seq<Token>,
    n: int,
    len: int,
)
    requires
        m.wf(),
        input.len() == indices.len(),
        m.live(n),
    ensures
        m.after_insert(input, indices).live(n),
        m.after_insert(input, indices).prefix(n) == m.prefix(n),
        m.after_insert(input, indices).readable(n, len),
        m.after_insert(input, indices).indices_of(n, len) == m.indices_of(n, len),
{
    lemma_after_insert(m, input, indices);
    lemma_insert_nodes(m, input, indices);
    let x = m.nodes[n];
    lemma_live_readable(m.after_insert(input, indices), n, len);
}

} // verus!
