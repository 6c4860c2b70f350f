//! Walks along the tree: matching, lookup and insertion.

use crate::align::{align_down, lemma_aligned_down, lemma_aligned_gap};
use crate::changes::{
    lemma_lengths, lemma_sizes_add_up, lemma_touch, lemma_touch_edge, lemma_touch_nothing,
    lemma_touch_step, same_tree,
};
use crate::lookup::{lemma_walk_edge, lemma_walk_on, lemma_walk_stuck, next_page};
use crate::matching::{lemma_after_insert, lemma_after_match, lemma_matched_place};
use crate::model::{CacheModel, NodeId, Token, ROOT};
use crate::span::common_prefix_len;
use crate::tree::{lemma_child_entry, lemma_same_places, RadixTree};
use crate::trie::lemma_page_fits;
use vstd::prelude::*;
use vstd::slice::slice_subrange;

verus! {

impl RadixTree {
    /// The node under `node` that goes on with the next page of the input.
    fn next_node(&self, node: NodeId, input_ids: &[Token], prefix_len: usize) -> (r: Option<NodeId>)
        requires
            self.inv(),
            node < self.nodes@.len(),
            prefix_len < input_ids@.len(),
        ensures
            ({
                let k = next_page(self@, input_ids@, prefix_len as int);
                match r {
                    Some(c) => {
                        &&& c != ROOT
                        &&& self@.live(c as int)
                        &&& self@.parent(c as int) == node
                        &&& self@.page(c as int) == k
                    },
                    None => forall|c: int| #[trigger]
                        self@.live(c) && c != ROOT && self@.parent(c) == node ==> self@.page(c) != k,
                }
            }),
    {
        let rest = slice_subrange(input_ids, prefix_len, input_ids.len());
        let key = self.child_key_slice(rest);
        proof {
            assert(key@ =~= next_page(self@, input_ids@, prefix_len as int));
            lemma_child_entry(*self, node as int, key@);
        }
        self.nodes[node].children.get(key)
    }

    /// How many tokens of `node` the input goes on with after the first `prefix_len`.
    fn common_len(&self, node: NodeId, input_ids: &[Token], prefix_len: usize) -> (r: usize)
        requires
            self.inv(),
            node < self.nodes@.len(),
            prefix_len <= input_ids@.len(),
        ensures
            r <= self@.key_len(node as int),
            prefix_len + r <= input_ids@.len(),
            self@.key(node as int).take(r as int) == input_ids@.subrange(
                prefix_len as int,
                prefix_len + r,
            ),
            r < self@.key_len(node as int) && prefix_len + r < input_ids@.len() ==> self@.key(
                node as int,
            )[r as int] != input_ids@[prefix_len + r],
    {
        proof {
            assert(self.node_inv(node as int));
            lemma_lengths(self@, node as int);
        }
        let rest = slice_subrange(input_ids, prefix_len, input_ids.len());
        let r = common_prefix_len(self.nodes[node].key.as_slice(), rest);
        proof {
            assert(rest@.take(r as int) =~= input_ids@.subrange(prefix_len as int, prefix_len + r));
        }
        r
    }

    /// Finds the longest cached run of whole pages at the start of the input. The nodes on
    /// the way are marked as used now. Where the run ends inside a node, that node is divided,
    /// so that the node given back stands for the run exactly.
    pub fn tree_walk(&mut self, input_ids: &[Token]) -> (r: (NodeId, usize))
        requires
            old(self).inv(),
            old(self).next_timestamp < u64::MAX,
        ensures
            final(self).inv(),
            final(self)@ == old(self)@.after_match(input_ids@),
            r.0 == old(self)@.match_node(input_ids@),
            r.1 == old(self)@.matched_len(input_ids@),
    {
        let ghost m = self@;
        let ghost input = input_ids@;
        let mut prefix_len: usize = 0;
        let total_len = input_ids.len();
        let mut node: NodeId = ROOT;
        let ghost was = *self;
        let tic = self.tick();
        proof {
            lemma_same_places(was, *self);
            lemma_touch_nothing(m);
            assert(self@.nodes =~= m.nodes);
            lemma_touch(m, m.prefix(ROOT as int));
            assert(m.prefix(ROOT as int) =~= input.take(0));
        }

        while prefix_len < total_len
            invariant
                m.wf(),
                m == old(self)@,
                input == input_ids@,
                total_len == input.len(),
                prefix_len <= total_len,
                tic == m.clock,
                self.inv(),
                self@ == m.touch(m.prefix(node as int)),
                self.next_timestamp == tic + 1,
                m.ends_at(node as int, input.take(prefix_len as int)),
            decreases total_len - prefix_len,
        {
            proof {
                lemma_touch(m, m.prefix(node as int));
            }
            let ghost cur = self@;
            proof {
                lemma_same_shape(m, cur);
            }
            let child = match self.next_node(node, input_ids, prefix_len) {
                Some(child) => child,
                None => {
                    proof {
                        assert forall|c: int| #[trigger]
                            m.live(c) && c != ROOT && m.parent(c) == node implies m.page(c)
                            != next_page(m, input, prefix_len as int) by {
                            assert(cur.live(c));
                        }
                        lemma_walk_stuck(m, node as int, input, prefix_len as nat);
                    }
                    return (node, prefix_len);
                },
            };
            proof {
                assert(m.live(child as int));
                assert(m.node_ok(child as int));
                lemma_page_fits(m, child as int);
            }
            let common = self.common_len(child, input_ids, prefix_len);
            let match_len = align_down(common, self.page_size);
            let ghost from = prefix_len as nat;
            prefix_len = prefix_len + match_len;

            proof {
                assert(self.node_inv(child as int));
                lemma_lengths(m, child as int);
                lemma_aligned_down(common as nat, m.page_size);
            }
            if match_len != self.nodes[child].len() {
                proof {
                    lemma_walk_edge(m, node as int, child as int, input, from, common as nat);
                    lemma_touch_edge(m, child as int, input.take(prefix_len as int));
                }
                let split_node = self.split_at(child, match_len, tic);
                return (split_node, prefix_len);
            }
            proof {
                assert(m.key(child as int) =~= m.key(child as int).take(common as int));
                lemma_walk_on(m, node as int, child as int, input, from);
                lemma_touch_step(m, child as int);
                lemma_touch(m, m.prefix(child as int));
            }
            let ghost before = *self;
            self.nodes[child].timestamp = tic;
            proof {
                lemma_same_places(before, *self);
                assert(self@.nodes =~= m.touch(m.prefix(child as int)).nodes);
            }
            node = child;
        }
        proof {
            lemma_walk_stuck(m, node as int, input, prefix_len as nat);
        }
        (node, prefix_len)
    }

    /// Finds the longest cached run of whole pages at the start of the input, and leaves the
    /// tree as it is. The node given back may go on after the run.
    pub fn read_tree_walk(&self, input_ids: &[Token]) -> (r: (NodeId, usize))
        requires
            self.inv(),
        ensures
            r.0 == self@.node_over(self@.matched(input_ids@)),
            r.1 == self@.matched_len(input_ids@),
            self@.live(r.0 as int),
    {
        let ghost m = self@;
        let ghost input = input_ids@;
        let mut prefix_len: usize = 0;
        let total_len = input_ids.len();
        let mut node: NodeId = ROOT;
        proof {
            assert(m.prefix(ROOT as int) =~= input.take(0));
        }

        while prefix_len < total_len
            invariant
                m == self@,
                self.inv(),
                input == input_ids@,
                total_len == input.len(),
                prefix_len <= total_len,
                m.ends_at(node as int, input.take(prefix_len as int)),
            decreases total_len - prefix_len,
        {
            let child = match self.next_node(node, input_ids, prefix_len) {
                Some(child) => child,
                None => {
                    proof {
                        lemma_walk_stuck(m, node as int, input, prefix_len as nat);
                    }
                    return (node, prefix_len);
                },
            };
            proof {
                assert(m.node_ok(child as int));
                lemma_page_fits(m, child as int);
            }
            let common = self.common_len(child, input_ids, prefix_len);
            let match_len = align_down(common, self.page_size);
            let ghost from = prefix_len as nat;
            prefix_len = prefix_len + match_len;
            proof {
                assert(self.node_inv(child as int));
                lemma_lengths(m, child as int);
                lemma_aligned_down(common as nat, m.page_size);
            }
            if match_len != self.nodes[child].len() {
                proof {
                    lemma_walk_edge(m, node as int, child as int, input, from, common as nat);
                }
                return (child, prefix_len);
            }
            proof {
                assert(m.key(child as int) =~= m.key(child as int).take(common as int));
                lemma_walk_on(m, node as int, child as int, input, from);
            }
            node = child;
        }
        proof {
            lemma_walk_stuck(m, node as int, input, prefix_len as nat);
        }
        (node, prefix_len)
    }

    /// Caches the whole pages of the input, with their cache indices. Gives the node that ends
    /// them, how many tokens were cached before, and how many are now.
    pub fn insert(&mut self, input_ids: &[Token], indices: &[Token]) -> (r: (NodeId, usize, usize))
        requires
            old(self).inv(),
            input_ids@.len() == indices@.len(),
            old(self)@.after_insert(input_ids@, indices@).fits(),
        ensures
            final(self).inv(),
            final(self)@ == old(self)@.after_insert(input_ids@, indices@),
            r.0 == old(self)@.insert_node(input_ids@),
            r.2 == old(self)@.insert_len(input_ids@.len()),
            r.1 == old(self)@.matched_len(input_ids@.take(r.2 as int)),
    {
        let ghost m = self@;
        proof {
            lemma_after_insert(m, input_ids@, indices@);
        }
        // Tokens after the last whole page are not cached.
        let insert_len = align_down(input_ids.len(), self.page_size);
        let ghost all_indices = indices@;
        let input_ids = slice_subrange(input_ids, 0, insert_len);
        let indices = slice_subrange(indices, 0, insert_len);
        let ghost s = input_ids@;
        proof {
            lemma_matched_place(m, s);
            lemma_after_match(m, s);
        }
        let (mut node, prefix_len) = self.tree_walk(input_ids);
        if prefix_len != insert_len {
            let rest = slice_subrange(input_ids, prefix_len, insert_len);
            let rest_indices = slice_subrange(indices, prefix_len, insert_len);
            proof {
                lemma_aligned_gap(prefix_len as nat, insert_len as nat, m.page_size);
                assert(rest@.take(m.page_size as int) =~= s.subrange(
                    prefix_len as int,
                    prefix_len + m.page_size,
                ));
                assert(self@.prefix(node as int) + rest@ =~= s);
                assert(rest_indices@ =~= all_indices.subrange(
                    prefix_len as int,
                    insert_len as int,
                ));
            }
            node = self.add_child(node, rest, rest_indices);
        }
        (node, prefix_len, insert_len)
    }

    /// Whether an insertion can be carried out: whether clock and sizes can still be kept
    /// after it.
    pub fn can_insert(&self, input_ids: &[Token], indices: &[Token]) -> (r: bool)
        requires
            self.inv(),
            input_ids@.len() == indices@.len(),
        ensures
            r == self@.after_insert(input_ids@, indices@).fits(),
    {
        let ghost m = self@;
        proof {
            lemma_after_insert(m, input_ids@, indices@);
            lemma_sizes_add_up(m);
        }
        let insert_len = align_down(input_ids.len(), self.page_size);
        let input_ids = slice_subrange(input_ids, 0, insert_len);
        let (_, prefix_len) = self.read_tree_walk(input_ids);
        if prefix_len == insert_len {
            self.next_timestamp < u64::MAX
        } else {
            let room = usize::MAX - self.evictable_size - self.protected_size;
            self.next_timestamp < u64::MAX - 1 && insert_len - prefix_len <= room
        }
    }

    /// Appends the cache indices of the first `remaining` tokens on the way to `node`. Gives
    /// how many are missing.
    pub fn append_node_indices_from_root(
        &self,
        node: NodeId,
        remaining: usize,
        output: &mut Vec<Token>,
    ) -> (r: usize)
        requires
            self.inv(),
            self@.readable(node as int, remaining as int),
        ensures
            final(output)@ == old(output)@ + self@.indices_of(node as int, remaining as int),
            r == remaining - self@.indices_of(node as int, remaining as int).len(),
        decreases self@.prefix(node as int).len(),
    {
        let ghost m = self@;
        let ghost n = node as int;
        if node == ROOT || remaining == 0 {
            proof {
                assert(output@ =~= output@ + m.indices_of(n, remaining as int));
            }
            return remaining;
        }
        proof {
            lemma_lengths(m, n);
            assert(m.node_ok(n));
            assert(self.node_inv(n));
            assert forall|a: int| #[trigger]
                m.on_path(a, m.parent(n)) && a != ROOT && m.start(a) < remaining implies
                m.nodes[a].alive by {
                assert(m.on_path(a, n));
            }
            assert(m.on_path(n, n));
            lemma_lengths(m, m.parent(n));
        }
        let parent = self.nodes[node].parent.unwrap();
        let ghost before = output@;
        let rest = self.append_node_indices_from_root(parent, remaining, output);
        let ghost above = m.nodes[m.parent(n)].indices;
        let ghost all = m.nodes[n].indices;
        proof {
            assert(above =~= all.subrange(0, above.len() as int));
        }
        if rest == 0 {
            proof {
                assert(m.indices_of(n, remaining as int) =~= m.indices_of(
                    m.parent(n),
                    remaining as int,
                ));
            }
            return 0;
        }
        let value = self.nodes[node].value.as_slice();
        let take = if rest < value.len() {
            rest
        } else {
            value.len()
        };
        output.extend_from_slice(slice_subrange(value, 0, take));
        proof {
            assert(output@ =~= before + m.indices_of(n, remaining as int));
        }
        rest - take
    }
}

/// Caches with the same tree have the same nodes in the same places.
proof fn lemma_same_shape(a: CacheModel, b: CacheModel)
    requires
        a.wf(),
        same_tree(a, b),
    ensures
        forall|c: int| #[trigger] a.live(c) == b.live(c),
        forall|c: int| #[trigger] b.live(c) ==> a.live(c),
        forall|c: int| 0 <= c < a.nodes.len() ==> #[trigger] b.prefix(c) == a.prefix(c),
        forall|c: int| 0 <= c < a.nodes.len() ==> #[trigger] b.start(c) == a.start(c),
        forall|c: int| 0 <= c < a.nodes.len() ==> #[trigger] b.parent(c) == a.parent(c),
        forall|c: int| 0 <= c < a.nodes.len() ==> #[trigger] b.key(c) == a.key(c),
        forall|c: int| 0 <= c < a.nodes.len() ==> #[trigger] b.page(c) == a.page(c),
        forall|c: int| 0 <= c < a.nodes.len() ==> #[trigger] b.key_len(c) == a.key_len(c),
{
    assert forall|c: int| #[trigger] a.live(c) == b.live(c) by {
        let x = a.nodes[c];
    }
    assert forall|c: int| 0 <= c < a.nodes.len() implies b.start(c) == a.start(c) && b.prefix(c)
        == a.prefix(c) && b.parent(c) == a.parent(c) by {
        let x = a.nodes[c];
        if c != ROOT {
            assert(a.node_ok(c));
            let y = a.nodes[a.parent(c)];
        }
    }
}

} // verus!
