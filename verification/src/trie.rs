//! The shape of a well-formed tree: where a node stands follows from its prefix alone.

use crate::align::lemma_aligned_gap;
use crate::model::{CacheModel, Token, ROOT};
use vstd::arithmetic::div_mod::lemma_small_mod;
use vstd::prelude::*;

verus! {

pub proof fn lemma_prefix_trans(a: Seq<Token>, b: Seq<Token>, c: Seq<Token>)
    requires
        a.is_prefix_of(b),
        b.is_prefix_of(c),
    ensures
        a.is_prefix_of(c),
{
    assert forall|k: int| 0 <= k < a.len() implies a[k] == c[k] by {
        assert(a[k] == b.subrange(0, a.len() as int)[k]);
        assert(b[k] == c.subrange(0, b.len() as int)[k]);
    }
    assert(a =~= c.subrange(0, a.len() as int));
}

/// Of two prefixes of one sequence the shorter is a prefix of the longer.
pub proof fn lemma_prefix_pair(a: Seq<Token>, b: Seq<Token>, c: Seq<Token>)
    requires
        a.is_prefix_of(c),
        b.is_prefix_of(c),
        a.len() <= b.len(),
    ensures
        a.is_prefix_of(b),
        a.len() == b.len() ==> a == b,
{
    assert forall|k: int| 0 <= k < a.len() implies a[k] == b[k] by {
        assert(a[k] == c.subrange(0, a.len() as int)[k]);
        assert(b[k] == c.subrange(0, b.len() as int)[k]);
    }
    assert(a =~= b.subrange(0, a.len() as int));
    if a.len() == b.len() {
        assert(a =~= b);
    }
}

pub proof fn lemma_prefix_self(a: Seq<Token>)
    ensures
        a.is_prefix_of(a),
{
    assert(a =~= a.subrange(0, a.len() as int));
}

pub proof fn lemma_take_is_prefix(a: Seq<Token>, l: int)
    requires
        0 <= l <= a.len(),
    ensures
        a.take(l).is_prefix_of(a),
{
    assert(a.take(l) =~= a.subrange(0, a.take(l).len() as int));
}

/// The nodes on the way to `n` hold the prefixes of what `n` holds.
pub proof fn lemma_path_prefix(m: CacheModel, a: int, n: int)
    requires
        m.wf(),
        0 <= n < m.nodes.len(),
        m.on_path(a, n),
    ensures
        0 <= a < m.nodes.len(),
        m.prefix(a).is_prefix_of(m.prefix(n)),
        a != n ==> m.prefix(a).len() < m.prefix(n).len(),
        a != n ==> n != ROOT && m.prefix(a).len() <= m.start(n),
        m.live(n) ==> m.live(a),
    decreases m.prefix(n).len(),
{
    if a == n {
        lemma_prefix_self(m.prefix(n));
    } else {
        assert(m.node_ok(n));
        let p = m.parent(n);
        lemma_path_prefix(m, a, p);
        lemma_prefix_trans(m.prefix(a), m.prefix(p), m.prefix(n));
    }
}

/// Every way starts at the root.
pub proof fn lemma_root_on_path(m: CacheModel, n: int)
    requires
        m.wf(),
        0 <= n < m.nodes.len(),
    ensures
        m.on_path(ROOT as int, n),
    decreases m.prefix(n).len(),
{
    if n != ROOT {
        assert(m.node_ok(n));
        lemma_root_on_path(m, m.parent(n));
    }
}

/// The next node after `r` on the way to `n`.
pub proof fn lemma_step_down(m: CacheModel, r: int, n: int) -> (a: int)
    requires
        m.wf(),
        0 <= n < m.nodes.len(),
        m.on_path(r, n),
        r != n,
    ensures
        0 < a < m.nodes.len(),
        m.parent(a) == r,
        m.on_path(a, n),
    decreases m.prefix(n).len(),
{
    assert(m.node_ok(n));
    let p = m.parent(n);
    if r == p {
        n
    } else {
        lemma_step_down(m, r, p)
    }
}

/// Two nodes under the same parent, both on the way along `s`, are the same.
pub proof fn lemma_one_continuation(m: CacheModel, a: int, b: int, s: Seq<Token>)
    requires
        m.wf(),
        a != ROOT,
        b != ROOT,
        m.live(a),
        m.live(b),
        m.parent(a) == m.parent(b),
        m.prefix(a).is_prefix_of(s),
        m.prefix(b).is_prefix_of(s),
    ensures
        a == b,
{
    assert(m.node_ok(a));
    assert(m.node_ok(b));
    lemma_page_fits(m, a);
    lemma_page_fits(m, b);
    let st = m.start(a);
    let pg = m.page_size as int;
    assert forall|k: int| 0 <= k < pg implies m.page(a)[k] == m.page(b)[k] by {
        assert(m.prefix(a)[st + k] == s.subrange(0, m.prefix(a).len() as int)[st + k]);
        assert(m.prefix(b)[st + k] == s.subrange(0, m.prefix(b).len() as int)[st + k]);
    }
    assert(m.page(a) =~= m.page(b));
    assert(!m.clash(a, b));
}

/// A node holds at least a page, and whole pages.
pub proof fn lemma_page_fits(m: CacheModel, a: int)
    requires
        m.wf(),
        0 < a < m.nodes.len(),
    ensures
        m.start(a) + m.page_size <= m.prefix(a).len(),
        m.start(a) % (m.page_size as int) == 0,
        m.key_len(a) % (m.page_size as int) == 0,
        m.page(a).len() == m.page_size,
{
    assert(m.node_ok(a));
    let p = m.parent(a);
    if p != ROOT {
        assert(m.node_ok(p));
    } else {
        lemma_small_mod(0, m.page_size);
    }
    lemma_aligned_gap(m.prefix(p).len(), m.prefix(a).len(), m.page_size);
}

/// A node of the tree whose prefix is a prefix of another's is on the way to it.
pub proof fn lemma_prefix_path(m: CacheModel, p: int, n: int)
    requires
        m.wf(),
        m.live(p),
        m.live(n),
        m.prefix(p).is_prefix_of(m.prefix(n)),
    ensures
        m.on_path(p, n),
    decreases m.prefix(p).len() + m.prefix(n).len(),
{
    if p == n {
    } else if p == ROOT {
        lemma_root_on_path(m, n);
    } else {
        assert(m.node_ok(p));
        if n != ROOT {
            assert(m.node_ok(n));
        }
        if n != ROOT && m.prefix(p).len() <= m.start(n) {
            let q = m.parent(n);
            lemma_prefix_pair(m.prefix(p), m.prefix(q), m.prefix(n));
            lemma_prefix_path(m, p, q);
        } else {
            let r = m.parent(p);
            lemma_prefix_trans(m.prefix(r), m.prefix(p), m.prefix(n));
            lemma_prefix_path(m, r, n);
            let a = lemma_step_down(m, r, n);
            lemma_path_prefix(m, a, n);
            lemma_one_continuation(m, a, p, m.prefix(n));
        }
    }
}

/// No two nodes of the tree end after the same tokens.
pub proof fn lemma_same_prefix(m: CacheModel, a: int, b: int)
    requires
        m.wf(),
        m.live(a),
        m.live(b),
        m.prefix(a) == m.prefix(b),
    ensures
        a == b,
{
    lemma_prefix_self(m.prefix(a));
    lemma_prefix_path(m, a, b);
    lemma_path_prefix(m, a, b);
}

/// A node of the tree on the way along the prefix of `c` is `c` or ends before it starts.
pub proof fn lemma_above(m: CacheModel, i: int, c: int)
    requires
        m.wf(),
        m.live(i),
        m.live(c),
        c != ROOT,
        m.prefix(i).is_prefix_of(m.prefix(c)),
        i != c,
    ensures
        m.prefix(i).is_prefix_of(m.prefix(m.parent(c))),
        m.prefix(i).len() <= m.start(c),
{
    assert(m.node_ok(c));
    lemma_prefix_path(m, i, c);
    lemma_path_prefix(m, i, m.parent(c));
}

} // verus!
