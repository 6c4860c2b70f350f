//! The radix tree: an arena of nodes and the sizes of what they hold.

use crate::align::{lemma_aligned_gap, lemma_aligned_sum};
use crate::changes::{lemma_add_leaf, lemma_lengths, lemma_sizes_add_up, lemma_split, same_tree};
use crate::model::{empty_cache, CacheModel, NodeId, Token, ROOT};
use crate::node::{Path, RadixTreeNode};
use crate::span::TokenSpan;
use crate::sums::sum_below;
use crate::trie::lemma_page_fits;
use vstd::arithmetic::div_mod::lemma_small_mod;
use vstd::prelude::*;
use vstd::slice::{slice_subrange, slice_to_vec};

verus! {

/// The nodes of a prefix cache.
#[derive(Debug)]
pub struct RadixTree {
    pub page_size: usize,
    pub nodes: Vec<RadixTreeNode>,
    pub evictable_size: usize,
    pub protected_size: usize,
    pub next_timestamp: u64,
}

/// Whether `paths` gives for each node the tokens, and the cache indices, from the root to its
/// end.
pub open spec fn paths_ok(nodes: Seq<RadixTreeNode>, paths: Seq<Path>) -> bool {
    &&& nodes.len() > 0
    &&& paths.len() == nodes.len()
    &&& paths[0] == (Seq::<Token>::empty(), Seq::<Token>::empty())
    &&& forall|i: int| 0 < i < nodes.len() ==> #[trigger] path_ok(nodes, paths, i)
}

/// Whether the path to node `i` is the path to its parent and what `i` itself holds.
pub open spec fn path_ok(nodes: Seq<RadixTreeNode>, paths: Seq<Path>, i: int) -> bool {
    &&& nodes[i].parent matches Some(p) && {
        &&& p < nodes.len()
        &&& nodes[i].key@.len() > 0
        &&& paths[i].0 == paths[p as int].0 + nodes[i].key@
        &&& paths[i].1 == paths[p as int].1 + nodes[i].value@
    }
}

/// The paths to all nodes.
pub open spec fn paths_of(nodes: Seq<RadixTreeNode>) -> Seq<Path> {
    choose|paths: Seq<Path>| paths_ok(nodes, paths)
}

/// No node has two paths.
proof fn lemma_path_unique(nodes: Seq<RadixTreeNode>, a: Seq<Path>, b: Seq<Path>, i: int)
    requires
        paths_ok(nodes, a),
        paths_ok(nodes, b),
        0 <= i < nodes.len(),
    ensures
        a[i] == b[i],
    decreases a[i].0.len(),
{
    if i > 0 {
        assert(path_ok(nodes, a, i));
        assert(path_ok(nodes, b, i));
        lemma_path_unique(nodes, a, b, nodes[i].parent->0 as int);
    }
}

/// After a node is divided as `split_at` does it, the entries still lead to where the nodes
/// hang.
proof fn lemma_split_inv(was: RadixTree, now: RadixTree, n: int, l: int, timestamp: nat)
    requires
        was.inv(),
        n != ROOT,
        was@.live(n),
        was@.start(n) < l < was@.prefix(n).len(),
        l % (was@.page_size as int) == 0,
        timestamp < was@.clock,
        now@ == was@.split(n, l, timestamp),
        paths_ok(now.nodes@, paths_of(now.nodes@)),
        now.evictable_size == was.evictable_size,
        now.protected_size == was.protected_size,
        ({
            let p = was@.parent(n);
            let f = was.nodes@.len() as int;
            let m = was@;
            &&& now.nodes@.len() == f + 1
            &&& forall|i: int|
                0 <= i < f && i != p && i != n ==> #[trigger] now.nodes@[i] == was.nodes@[i]
            &&& now.nodes@[p].wf()
            &&& now.nodes@[p].uuid == p
            &&& now.nodes@[p].key == was.nodes@[p].key
            &&& now.nodes@[p].value == was.nodes@[p].value
            &&& now.nodes@[p].children@ == was.nodes@[p].children@.insert(m.page(n), f as usize)
            &&& now.nodes@[n].wf()
            &&& now.nodes@[n].uuid == n
            &&& now.nodes@[n].key@ == m.prefix(n).skip(l)
            &&& now.nodes@[n].value@ == m.nodes[n].indices.skip(l)
            &&& now.nodes@[n].children == was.nodes@[n].children
            &&& now.nodes@[f].wf()
            &&& now.nodes@[f].uuid == f
            &&& now.nodes@[f].key@ == m.prefix(n).subrange(m.start(n), l)
            &&& now.nodes@[f].value@ == m.nodes[n].indices.subrange(m.start(n), l)
            &&& now.nodes@[f].children@ == Map::<Seq<Token>, NodeId>::empty().insert(
                m.prefix(n).subrange(l, l + m.page_size),
                n as usize,
            )
            &&& f as usize == f
        }),
    ensures
        now.inv(),
{
    let m = was@;
    let t = now@;
    let p = m.parent(n);
    let f = was.nodes@.len() as int;
    assert(m.node_ok(n));
    assert(was.node_inv(n));
    assert(was.node_inv(p));
    lemma_split(m, n, l, timestamp);
    lemma_page_fits(m, n);
    lemma_aligned_gap(m.start(n) as nat, l as nat, m.page_size);
    assert(t.page(f) =~= m.page(n));
    assert(was.listed(n));
    // What stays as it was.
    assert forall|c: int| c != ROOT && c != n && #[trigger] m.live(c) implies t.parent(c)
        == m.parent(c) && t.page(c) == m.page(c) && t.live(c) by {
        assert(m.node_ok(c));
        assert(t.page(c) =~= m.page(c));
    }
    assert forall|i: int| 0 <= i < now.nodes@.len() implies #[trigger] now.node_inv(i) by {
        if i < f {
            assert(was.node_inv(i));
            if i != ROOT {
                assert(m.node_ok(i));
            }
            if i != n {
                assert(t.key(i) =~= m.key(i));
                assert(t.value(i) =~= m.value(i));
            }
        } else {
            assert(t.key(f) =~= now.nodes@[f].key@);
            assert(t.value(f) =~= now.nodes@[f].value@);
        }
        assert forall|k: Seq<Token>| now.nodes@[i].children@.dom().contains(k) implies
            #[trigger] now.child_ok(i, k) by {
            if i == f {
                assert(t.page(n) =~= k);
            } else if i == p && k == m.page(n) {
            } else {
                assert(was.child_ok(i, k));
                assert(m.live(was.nodes@[i].children@[k] as int));
            }
        }
    }
    assert forall|c: int| c != ROOT && #[trigger] t.live(c) implies now.listed(c) by {
        if c == n {
            assert(t.page(n) =~= m.prefix(n).subrange(l, l + m.page_size));
        } else if c != f {
            assert(m.live(c));
            assert(was.listed(c));
            assert(m.node_ok(c));
        }
    }
}

/// Whether two nodes hold the same and hang in the same place.
pub open spec fn same_place(a: RadixTreeNode, b: RadixTreeNode) -> bool {
    &&& a.key == b.key
    &&& a.value == b.value
    &&& a.children@ == b.children@
    &&& a.children.wf() ==> b.children.wf()
    &&& a.parent == b.parent
    &&& a.uuid == b.uuid
    &&& a.alive == b.alive
}

/// Timestamps, locks and the clock leave the tree as it is.
pub proof fn lemma_same_places(was: RadixTree, now: RadixTree)
    requires
        was.inv(),
        now.page_size == was.page_size,
        now.nodes@.len() == was.nodes@.len(),
        forall|i: int|
            0 <= i < was.nodes@.len() ==> same_place(#[trigger] was.nodes@[i], now.nodes@[i]),
    ensures
        same_tree(was@, now@),
        now@ == now.model(paths_of(was.nodes@)),
        now@.wf() && now@.fits() && now.evictable_size == now@.evictable_size()
            && now.protected_size == now@.protected_size() ==> now.inv(),
{
    let paths = paths_of(was.nodes@);
    assert forall|i: int| 0 < i < now.nodes@.len() implies #[trigger] path_ok(
        now.nodes@,
        paths,
        i,
    ) by {
        assert(path_ok(was.nodes@, paths, i));
        assert(same_place(was.nodes@[i], now.nodes@[i]));
    }
    now.lemma_view(paths);
    let m = was@;
    let t = now@;
    assert forall|i: int| 0 <= i < m.nodes.len() implies {
        let x = #[trigger] m.nodes[i];
        let y = t.nodes[i];
        &&& x.prefix == y.prefix
        &&& x.indices == y.indices
        &&& x.parent == y.parent
        &&& x.alive == y.alive
    } by {
        assert(same_place(was.nodes@[i], now.nodes@[i]));
    }
    assert forall|c: int| c != ROOT && #[trigger] m.live(c) implies t.live(c) && t.parent(c)
        == m.parent(c) && t.page(c) == m.page(c) by {
        assert(m.node_ok(c));
        let x = m.nodes[c];
        let y = m.nodes[m.parent(c)];
    }
    assert forall|i: int| 0 <= i < now.nodes@.len() implies #[trigger] now.node_inv(i) by {
        assert(was.node_inv(i));
        assert(same_place(was.nodes@[i], now.nodes@[i]));
        let x = m.nodes[i];
        if i != ROOT {
            assert(m.node_ok(i));
            let y = m.nodes[m.parent(i)];
        }
        assert forall|k: Seq<Token>| now.nodes@[i].children@.dom().contains(k) implies
            #[trigger] now.child_ok(i, k) by {
            assert(was.child_ok(i, k));
            assert(m.live(was.nodes@[i].children@[k] as int));
        }
    }
    assert forall|c: int| c != ROOT && #[trigger] t.live(c) implies now.listed(c) by {
        let x = m.nodes[c];
        assert(m.live(c));
        assert(was.listed(c));
        assert(m.node_ok(c));
        assert(same_place(was.nodes@[m.parent(c)], now.nodes@[m.parent(c)]));
    }
}

/// A page leads to the node under `i` that starts with it, and to nothing if there is none.
pub proof fn lemma_child_entry(t: RadixTree, i: int, k: Seq<Token>)
    requires
        t.inv(),
        0 <= i < t.nodes@.len(),
    ensures
        t.nodes@[i].wf(),
        t.nodes@[i].children@.dom().contains(k) ==> t.child_ok(i, k),
        !t.nodes@[i].children@.dom().contains(k) ==> forall|c: int| #[trigger]
            t@.live(c) && c != ROOT && t@.parent(c) == i ==> t@.page(c) != k,
{
    assert(t.node_inv(i));
    if !t.nodes@[i].children@.dom().contains(k) {
        assert forall|c: int| #[trigger]
            t@.live(c) && c != ROOT && t@.parent(c) == i implies t@.page(c) != k by {
            assert(t.listed(c));
        }
    }
}

/// After a leaf is hung up as `add_child` does it, the entries lead to where the nodes hang.
proof fn lemma_add_leaf_inv(was: RadixTree, now: RadixTree, n: int, s: Seq<Token>, tail: Seq<Token>)
    requires
        was.inv(),
        was@.live(n),
        now@ == was@.add_leaf(n, s, tail),
        now@.wf(),
        now@.fits(),
        paths_ok(now.nodes@, paths_of(now.nodes@)),
        now.evictable_size == now@.evictable_size(),
        now.protected_size == now@.protected_size(),
        ({
            let f = was.nodes@.len() as int;
            let m = was@;
            let pg = s.subrange(m.prefix(n).len() as int, m.prefix(n).len() + m.page_size as int);
            &&& now.nodes@.len() == f + 1
            &&& forall|i: int| 0 <= i < f && i != n ==> #[trigger] now.nodes@[i] == was.nodes@[i]
            &&& now.nodes@[n].wf()
            &&& now.nodes@[n].uuid == n
            &&& now.nodes@[n].key == was.nodes@[n].key
            &&& now.nodes@[n].value == was.nodes@[n].value
            &&& now.nodes@[n].children@ == was.nodes@[n].children@.insert(pg, f as usize)
            &&& !was.nodes@[n].children@.dom().contains(pg)
            &&& now.nodes@[f].wf()
            &&& now.nodes@[f].uuid == f
            &&& now.nodes@[f].key@ == now@.key(f)
            &&& now.nodes@[f].value@ == now@.value(f)
            &&& now.nodes@[f].children@ == Map::<Seq<Token>, NodeId>::empty()
            &&& f as usize == f
        }),
    ensures
        now.inv(),
{
    let m = was@;
    let t = now@;
    let f = was.nodes@.len() as int;
    assert forall|c: int| c != ROOT && #[trigger] m.live(c) implies t.parent(c) == m.parent(c)
        && t.page(c) == m.page(c) && t.live(c) by {
        assert(m.node_ok(c));
        assert(t.page(c) =~= m.page(c));
    }
    assert forall|i: int| 0 <= i < now.nodes@.len() implies #[trigger] now.node_inv(i) by {
        if i < f {
            assert(was.node_inv(i));
            if i != ROOT {
                assert(m.node_ok(i));
            }
            assert(t.key(i) =~= m.key(i));
            assert(t.value(i) =~= m.value(i));
        }
        assert forall|k: Seq<Token>| now.nodes@[i].children@.dom().contains(k) implies
            #[trigger] now.child_ok(i, k) by {
            if was.nodes@[i].children@.dom().contains(k) {
                assert(was.child_ok(i, k));
                assert(m.live(was.nodes@[i].children@[k] as int));
            }
        }
    }
    assert forall|c: int| c != ROOT && #[trigger] t.live(c) implies now.listed(c) by {
        if c != f {
            assert(m.live(c));
            assert(was.listed(c));
            assert(m.node_ok(c));
        }
    }
}

impl View for RadixTree {
    type V = CacheModel;

    open spec fn view(&self) -> CacheModel {
        self.model(paths_of(self.nodes@))
    }
}

impl RadixTree {
    /// The model of the tree, where `paths` lead to the nodes.
    pub open spec fn model(&self, paths: Seq<Path>) -> CacheModel {
        CacheModel {
            page_size: self.page_size as nat,
            nodes: Seq::new(self.nodes@.len(), |i: int| self.nodes@[i].model(paths[i])),
            clock: self.next_timestamp as nat,
        }
    }

    /// The model can be told from any paths that fit.
    pub proof fn lemma_view(&self, paths: Seq<Path>)
        requires
            paths_ok(self.nodes@, paths),
        ensures
            paths_ok(self.nodes@, paths_of(self.nodes@)),
            paths_of(self.nodes@) == paths,
            self@ == self.model(paths),
    {
        let chosen = paths_of(self.nodes@);
        assert(paths_ok(self.nodes@, chosen));
        assert forall|i: int| 0 <= i < paths.len() implies paths[i] == chosen[i] by {
            lemma_path_unique(self.nodes@, paths, chosen, i);
        }
        assert(paths =~= chosen);
    }

    /// Whether the entry for page `k` under node `i` is a node of the tree that hangs there.
    pub open spec fn child_ok(&self, i: int, k: Seq<Token>) -> bool {
        let c = self.nodes@[i].children@[k] as int;
        &&& c != ROOT
        &&& self@.live(c)
        &&& self@.parent(c) == i
        &&& self@.page(c) == k
    }

    /// Whether node `i` holds what its place in the tree says.
    pub open spec fn node_inv(&self, i: int) -> bool {
        let n = self.nodes@[i];
        &&& n.wf()
        &&& n.uuid == i
        &&& n.key@ == self@.key(i)
        &&& n.value@ == self@.value(i)
        &&& forall|k: Seq<Token>| n.children@.dom().contains(k) ==> #[trigger] self.child_ok(i, k)
    }

    /// Whether node `c` can be found from the node that it hangs under.
    pub open spec fn listed(&self, c: int) -> bool {
        let above = self.nodes@[self@.parent(c)].children@;
        above.dom().contains(self@.page(c)) && above[self@.page(c)] == c
    }

    /// What holds between operations.
    pub open spec fn inv(&self) -> bool {
        &&& paths_ok(self.nodes@, paths_of(self.nodes@))
        &&& self@.wf()
        &&& forall|i: int| 0 <= i < self.nodes@.len() ==> #[trigger] self.node_inv(i)
        &&& forall|c: int| c != ROOT && #[trigger] self@.live(c) ==> self.listed(c)
        &&& self.evictable_size == self@.evictable_size()
        &&& self.protected_size == self@.protected_size()
        &&& self@.fits()
    }

    /// The tree that holds nothing.
    pub fn new(page_size: usize) -> (r: Self)
        requires
            page_size > 0,
        ensures
            r.inv(),
            r@ == empty_cache(page_size as nat),
    {
        let mut nodes: Vec<RadixTreeNode> = Vec::new();
        nodes.push(RadixTreeNode::new_root(0));
        let r = Self { page_size, nodes, evictable_size: 0, protected_size: 0, next_timestamp: 1 };
        proof {
            let paths = seq![(Seq::<Token>::empty(), Seq::<Token>::empty())];
            assert(paths_ok(r.nodes@, paths));
            r.lemma_view(paths);
            let m = r@;
            assert(m.nodes =~= empty_cache(page_size as nat).nodes);
            assert(m.wf());
            assert(r.nodes@[0].key@ =~= m.key(0));
            assert(r.nodes@[0].value@ =~= m.value(0));
            assert(r.node_inv(0));
            reveal_with_fuel(sum_below, 2);
        }
        r
    }

    /// The page that decides which way a walk goes on: the first page of `tokens`, or all of
    /// them where there are fewer.
    pub fn child_key_slice<'a>(&self, tokens: &'a [Token]) -> (r: &'a [Token])
        requires
            tokens@.len() > 0,
        ensures
            tokens@.len() < self.page_size ==> r@ == tokens@,
            tokens@.len() >= self.page_size ==> r@ == tokens@.take(self.page_size as int),
    {
        if tokens.len() < self.page_size {
            tokens
        } else {
            slice_subrange(tokens, 0, self.page_size)
        }
    }

    /// A copy of the page that decides which way a walk goes on.
    pub fn child_key_owned(&self, tokens: &[Token]) -> (r: Vec<Token>)
        requires
            tokens@.len() > 0,
        ensures
            tokens@.len() < self.page_size ==> r@ == tokens@,
            tokens@.len() >= self.page_size ==> r@ == tokens@.take(self.page_size as int),
    {
        slice_to_vec(self.child_key_slice(tokens))
    }

    /// Takes the next timestamp.
    pub fn tick(&mut self) -> (r: u64)
        requires
            old(self).next_timestamp < u64::MAX,
        ensures
            r == old(self).next_timestamp,
            final(self).next_timestamp == r + 1,
            final(self).page_size == old(self).page_size,
            final(self).nodes == old(self).nodes,
            final(self).evictable_size == old(self).evictable_size,
            final(self).protected_size == old(self).protected_size,
    {
        let value = self.next_timestamp;
        self.next_timestamp = value + 1;
        value
    }

    /// Puts a new node between `node` and its parent, which takes over the first `pos` tokens
    /// of `node`.
    pub fn split_at(&mut self, node: NodeId, pos: usize, timestamp: u64) -> (r: NodeId)
        requires
            old(self).inv(),
            node != ROOT,
            old(self)@.live(node as int),
            0 < pos < old(self)@.key_len(node as int),
            pos % old(self).page_size == 0,
            timestamp < old(self).next_timestamp,
        ensures
            final(self).inv(),
            final(self)@ == old(self)@.split(
                node as int,
                old(self)@.start(node as int) + pos,
                timestamp as nat,
            ),
            r == old(self).nodes@.len(),
    {
        let ghost was = *self;
        let ghost m = self@;
        let ghost n = node as int;
        proof {
            assert(m.node_ok(n));
            assert(self.node_inv(n));
            lemma_page_fits(m, n);
            lemma_lengths(m, n);
            assert(self.node_inv(m.parent(n)));
            lemma_aligned_sum(m.start(n) as nat, pos as nat, m.page_size);
        }
        let ghost p = m.parent(n);
        let ghost l = m.start(n) + pos;
        let parent = self.nodes[node].parent.unwrap();
        let old_ref_count = self.nodes[node].ref_count;
        let old_child_key = self.child_key_owned(self.nodes[node].key.as_slice());

        let prefix_key = self.nodes[node].key.prefix(pos);
        let prefix_value = self.nodes[node].value.prefix(pos);
        let suffix_key = self.nodes[node].key.suffix_from(pos);
        let suffix_value = self.nodes[node].value.suffix_from(pos);
        let new_child_key = self.child_key_owned(suffix_key.as_slice());

        let new_parent_id = self.nodes.len();
        let mut new_parent = RadixTreeNode::new(
            prefix_key,
            prefix_value,
            parent,
            new_parent_id,
            timestamp,
        );
        new_parent.ref_count = old_ref_count;
        let ghost page_below = new_child_key@;
        new_parent.children.insert(new_child_key, node);
        self.nodes.push(new_parent);

        let ghost page_above = old_child_key@;
        self.nodes[parent].children.insert(old_child_key, new_parent_id);
        self.nodes[node].key = suffix_key;
        self.nodes[node].value = suffix_value;
        self.nodes[node].parent = Some(new_parent_id);
        proof {
            let f = new_parent_id as int;
            let old_paths = paths_of(was.nodes@);
            let paths = old_paths.push((m.prefix(n).take(l), m.nodes[n].indices.take(l)));
            assert(paths_ok(self.nodes@, paths)) by {
                assert forall|i: int| 0 < i < self.nodes@.len() implies #[trigger] path_ok(
                    self.nodes@,
                    paths,
                    i,
                ) by {
                    assert(path_ok(was.nodes@, old_paths, n));
                    if i == f {
                        assert(paths[f].0 =~= paths[p].0 + self.nodes@[f].key@);
                        assert(paths[f].1 =~= paths[p].1 + self.nodes@[f].value@);
                    } else if i == n {
                        assert(paths[n].0 =~= paths[f].0 + self.nodes@[n].key@);
                        assert(paths[n].1 =~= paths[f].1 + self.nodes@[n].value@);
                    } else {
                        assert(path_ok(was.nodes@, old_paths, i));
                    }
                }
            }
            self.lemma_view(paths);
            lemma_split(m, n, l, timestamp as nat);
            assert(self@.nodes =~= m.split(n, l, timestamp as nat).nodes);
            assert(page_above =~= m.page(n));
            assert(page_below =~= m.prefix(n).subrange(l, l + m.page_size)) by {
                lemma_aligned_gap(l as nat, m.prefix(n).len(), m.page_size);
            }
            assert(self.nodes@[n].key@ =~= m.prefix(n).skip(l));
            assert(self.nodes@[n].value@ =~= m.nodes[n].indices.skip(l));
            assert(self.nodes@[f].key@ =~= m.prefix(n).subrange(m.start(n), l));
            assert(self.nodes@[f].value@ =~= m.nodes[n].indices.subrange(m.start(n), l));
            assert(self.nodes@[p].uuid == p);
            lemma_split_inv(was, *self, n, l, timestamp as nat);
        }
        new_parent_id
    }

    /// Hangs a new leaf with the given tokens and cache indices under `parent`.
    pub fn add_child(&mut self, parent: NodeId, key: &[Token], value: &[Token]) -> (r: NodeId)
        requires
            old(self).inv(),
            old(self)@.live(parent as int),
            key@.len() > 0,
            key@.len() == value@.len(),
            key@.len() % old(self).page_size as nat == 0,
            old(self).next_timestamp < u64::MAX,
            old(self)@.total_size() + key@.len() <= usize::MAX,
            forall|c: int| #[trigger]
                old(self)@.live(c) && c != ROOT && old(self)@.parent(c) == parent
                    ==> old(self)@.page(c) != key@.take(old(self).page_size as int),
        ensures
            final(self).inv(),
            final(self)@ == old(self)@.add_leaf(
                parent as int,
                old(self)@.prefix(parent as int) + key@,
                value@,
            ),
            r == old(self).nodes@.len(),
    {
        let ghost was = *self;
        let ghost m = self@;
        let ghost n = parent as int;
        let ghost s = m.prefix(n) + key@;
        proof {
            lemma_lengths(m, n);
            lemma_small_mod(0, m.page_size);
            lemma_aligned_gap(0, key@.len(), m.page_size);
            lemma_aligned_sum(m.prefix(n).len(), key@.len(), m.page_size);
            lemma_sizes_add_up(m);
            assert(s.subrange(m.prefix(n).len() as int, m.prefix(n).len() + m.page_size as int)
                =~= key@.take(m.page_size as int));
            assert(m.prefix(n) =~= s.subrange(0, m.prefix(n).len() as int));
            lemma_add_leaf(m, n, s, value@);
            lemma_child_entry(*self, n, key@.take(m.page_size as int));
            if self.nodes@[n].children@.dom().contains(key@.take(m.page_size as int)) {
                let c = self.nodes@[n].children@[key@.take(m.page_size as int)] as int;
                assert(m.live(c));
            }
        }
        let child_key = self.child_key_owned(key);
        let ghost pg = child_key@;
        let node = self.nodes.len();
        let timestamp = self.tick();
        self.nodes.push(
            RadixTreeNode::new(
                TokenSpan::from_slice(key),
                TokenSpan::from_slice(value),
                parent,
                node,
                timestamp,
            ),
        );
        self.nodes[parent].children.insert(child_key, node);
        self.evictable_size = self.evictable_size + key.len();
        proof {
            let f = node as int;
            let old_paths = paths_of(was.nodes@);
            let paths = old_paths.push((s, m.nodes[n].indices + value@));
            assert forall|i: int| 0 < i < self.nodes@.len() implies #[trigger] path_ok(
                self.nodes@,
                paths,
                i,
            ) by {
                if i < f {
                    assert(path_ok(was.nodes@, old_paths, i));
                }
            }
            self.lemma_view(paths);
            assert(self@.nodes =~= m.add_leaf(n, s, value@).nodes);
            assert(self.nodes@[f].key@ =~= self@.key(f));
            assert(self.nodes@[f].value@ =~= self@.value(f));
            assert(was.node_inv(n));
            lemma_add_leaf_inv(was, *self, n, s, value@);
        }
        node
    }
}

impl Clone for RadixTree {
    fn clone(&self) -> (r: Self)
        ensures
            self.inv() ==> r.inv() && r@ == self@,
    {
        let mut nodes: Vec<RadixTreeNode> = Vec::new();
        let mut i: usize = 0;
        while i < self.nodes.len()
            invariant
                i <= self.nodes@.len(),
                nodes@.len() == i,
                forall|j: int|
                    0 <= j < i && self.nodes@[j].wf() ==> {
                        &&& same_place(self.nodes@[j], #[trigger] nodes@[j])
                        &&& nodes@[j].ref_count == self.nodes@[j].ref_count
                        &&& nodes@[j].timestamp == self.nodes@[j].timestamp
                    },
            decreases self.nodes@.len() - i,
        {
            nodes.push(self.nodes[i].clone());
            i = i + 1;
        }
        let r = Self {
            page_size: self.page_size,
            nodes,
            evictable_size: self.evictable_size,
            protected_size: self.protected_size,
            next_timestamp: self.next_timestamp,
        };
        proof {
            if self.inv() {
                assert forall|j: int| 0 <= j < self.nodes@.len() implies same_place(
                    #[trigger] self.nodes@[j],
                    r.nodes@[j],
                ) by {
                    assert(self.node_inv(j));
                    let copy = r.nodes@[j];
                }
                lemma_same_places(*self, r);
                assert forall|j: int| 0 <= j < self.nodes@.len() implies #[trigger] r@.nodes[j]
                    == self@.nodes[j] by {
                    assert(self.node_inv(j));
                    let copy = r.nodes@[j];
                }
                assert(r@ =~= self@);
            }
        }
        r
    }
}

} // verus!
