//! The mathematical model of the prefix cache.
//!
//! A cache is an arena of nodes. Each node ends a prefix of tokens: the tokens on the
//! way from the root to the end of the node. The model keeps that whole prefix, and the
//! cache index of each of its tokens, so that what the cache holds can be read off the
//! nodes that are alive, without a walk along the tree.

use crate::align::aligned_down;
use crate::sums::sum_below;
use vstd::prelude::*;

verus! {

/// A token id, or the index of a token's entry in the KV cache.
pub type Token = i32;

/// The position of a node in the arena.
pub type NodeId = usize;

/// The node that every walk starts from. It stands for the empty prefix.
pub const ROOT: usize = 0;

/// A node of the radix tree.
#[verifier::ext_equal]
pub struct NodeModel {
    /// The tokens from the root to the end of this node.
    pub prefix: Seq<Token>,
    /// The cache index of each token of `prefix`.
    pub indices: Seq<Token>,
    /// The node that this one hangs under; the root has none.
    pub parent: Option<int>,
    /// How many locks protect the node.
    pub ref_count: nat,
    /// When the node was last walked through.
    pub timestamp: nat,
    /// Whether the node is still in the tree.
    pub alive: bool,
}

/// A prefix cache.
#[verifier::ext_equal]
pub struct CacheModel {
    /// How many tokens make a page.
    pub page_size: nat,
    /// All nodes ever made, by id. Evicted ones stay, not alive.
    pub nodes: Seq<NodeModel>,
    /// The timestamp that the next operation gets.
    pub clock: nat,
}

/// What a size query gives: how many cached tokens may be evicted, and how many may not.
pub struct SizeModel {
    pub evictable: int,
    pub protected: int,
}

/// One node as a dump shows it: id, parent, key, value and reference count.
pub type DumpEntry = (int, Option<int>, Seq<Token>, Seq<Token>, nat);

/// The cache that holds nothing.
pub open spec fn empty_cache(page_size: nat) -> CacheModel {
    CacheModel {
        page_size,
        nodes: seq![
            NodeModel {
                prefix: Seq::empty(),
                indices: Seq::empty(),
                parent: None,
                ref_count: 1,
                timestamp: 0,
                alive: true,
            },
        ],
        clock: 1,
    }
}

/// Nodes and what they hold.
impl CacheModel {
    /// Whether `i` is a node that is still in the tree.
    pub open spec fn live(self, i: int) -> bool {
        0 <= i < self.nodes.len() && self.nodes[i].alive
    }

    /// The tokens from the root to the end of node `i`.
    pub open spec fn prefix(self, i: int) -> Seq<Token> {
        self.nodes[i].prefix
    }

    /// The node that `i` hangs under.
    pub open spec fn parent(self, i: int) -> int {
        self.nodes[i].parent->0
    }

    /// How many tokens come before those of node `i` itself.
    pub open spec fn start(self, i: int) -> int {
        if i == ROOT {
            0
        } else {
            self.prefix(self.parent(i)).len() as int
        }
    }

    /// How many tokens node `i` itself holds.
    pub open spec fn key_len(self, i: int) -> int {
        self.prefix(i).len() - self.start(i)
    }

    /// The tokens of node `i` itself.
    pub open spec fn key(self, i: int) -> Seq<Token> {
        self.prefix(i).skip(self.start(i))
    }

    /// The cache indices of node `i` itself.
    pub open spec fn value(self, i: int) -> Seq<Token> {
        self.nodes[i].indices.skip(self.start(i))
    }

    /// The first page of the tokens of node `i` itself.
    pub open spec fn page(self, i: int) -> Seq<Token> {
        self.prefix(i).subrange(self.start(i), self.start(i) + self.page_size)
    }

    /// Whether node `a` is `n` or one of the nodes between the root and `n`.
    pub open spec fn on_path(self, a: int, n: int) -> bool
        decreases self.prefix(n).len(),
    {
        a == n || (n != ROOT && self.prefix(self.parent(n)).len() < self.prefix(n).len()
            && self.on_path(a, self.parent(n)))
    }

    /// Whether node `i` has no node of the tree under it.
    pub open spec fn is_leaf(self, i: int) -> bool {
        forall|j: int| #[trigger] self.live(j) && j != ROOT ==> self.parent(j) != i
    }
}

/// What holds of every cache.
impl CacheModel {
    pub open spec fn root_ok(self) -> bool {
        &&& self.nodes.len() > 0
        &&& self.nodes[0] == empty_cache(self.page_size).nodes[0]
    }

    /// What holds of each node but the root: its own tokens fill whole pages, and it
    /// continues the prefix of a node that is in the tree whenever it is itself.
    pub open spec fn node_ok(self, i: int) -> bool {
        let p = self.parent(i);
        &&& self.nodes[i].parent is Some
        &&& 0 <= p < self.nodes.len()
        &&& self.prefix(p).len() < self.prefix(i).len()
        &&& self.prefix(i).len() == self.nodes[i].indices.len()
        &&& self.prefix(i).len() % self.page_size == 0
        &&& self.prefix(p).is_prefix_of(self.prefix(i))
        &&& self.nodes[p].indices.is_prefix_of(self.nodes[i].indices)
        &&& self.nodes[i].timestamp < self.clock
        &&& self.nodes[i].alive ==> self.nodes[p].alive
        &&& !self.nodes[i].alive ==> self.nodes[i].ref_count == 0
    }

    /// Whether two nodes of the tree hang under the same node and start with the same page.
    pub open spec fn clash(self, i: int, j: int) -> bool {
        &&& i != j
        &&& i != ROOT
        &&& j != ROOT
        &&& self.live(i)
        &&& self.live(j)
        &&& self.parent(i) == self.parent(j)
        &&& self.page(i) == self.page(j)
    }

    /// Whether this is a radix tree: nodes in order, and no two ways to continue a prefix
    /// with the same page.
    pub open spec fn wf(self) -> bool {
        &&& self.page_size > 0
        &&& self.clock > 0
        &&& self.root_ok()
        &&& forall|i: int| 0 < i < self.nodes.len() ==> #[trigger] self.node_ok(i)
        &&& forall|i: int, j: int| !#[trigger] self.clash(i, j)
    }
}

/// Sizes, in tokens.
impl CacheModel {
    pub open spec fn token_count(self, i: int) -> int {
        if i != ROOT && self.live(i) {
            self.key_len(i)
        } else {
            0
        }
    }

    pub open spec fn evictable_count(self, i: int) -> int {
        if self.nodes[i].ref_count == 0 {
            self.token_count(i)
        } else {
            0
        }
    }

    pub open spec fn protected_count(self, i: int) -> int {
        if self.nodes[i].ref_count > 0 {
            self.token_count(i)
        } else {
            0
        }
    }

    /// How many tokens the tree holds.
    pub open spec fn total_size(self) -> int {
        sum_below(|i: int| self.token_count(i), self.nodes.len())
    }

    /// How many of them stand in nodes that no lock protects.
    pub open spec fn evictable_size(self) -> int {
        sum_below(|i: int| self.evictable_count(i), self.nodes.len())
    }

    /// How many of them stand in nodes that a lock protects.
    pub open spec fn protected_size(self) -> int {
        sum_below(|i: int| self.protected_count(i), self.nodes.len())
    }

    pub open spec fn sizes(self) -> SizeModel {
        SizeModel { evictable: self.evictable_size(), protected: self.protected_size() }
    }

    /// Whether node `i` and all nodes of the tree under it are free of locks.
    pub open spec fn drains(self, i: int) -> bool {
        &&& i != ROOT
        &&& self.live(i)
        &&& forall|j: int| #[trigger]
            self.live(j) && self.prefix(i).is_prefix_of(self.prefix(j))
                ==> self.nodes[j].ref_count == 0
    }

    pub open spec fn drainable_count(self, i: int) -> int {
        if self.drains(i) {
            self.key_len(i)
        } else {
            0
        }
    }

    /// How many tokens eviction, which takes leaves only, can get at.
    pub open spec fn drainable_size(self) -> int {
        sum_below(|i: int| self.drainable_count(i), self.nodes.len())
    }

    /// Whether the clock and the sizes can be kept in machine words.
    pub open spec fn fits(self) -> bool {
        &&& self.clock <= u64::MAX
        &&& self.total_size() <= usize::MAX
    }
}

/// Lookup: the longest run of whole pages of the input that the tree holds.
impl CacheModel {
    /// Whether the tree holds `s`, which is whole pages.
    pub open spec fn holds(self, s: Seq<Token>) -> bool {
        &&& s.len() % self.page_size == 0
        &&& exists|i: int| #[trigger] self.live(i) && s.is_prefix_of(self.prefix(i))
    }

    /// Whether the first `l` tokens of `input` are whole pages and are cached.
    pub open spec fn covers(self, input: Seq<Token>, l: nat) -> bool {
        l <= input.len() && self.holds(input.take(l as int))
    }

    pub open spec fn is_longest_match(self, input: Seq<Token>, l: nat) -> bool {
        &&& self.covers(input, l)
        &&& forall|k: nat| #[trigger] self.covers(input, k) ==> k <= l
    }

    /// How many tokens of `input` are cached.
    pub open spec fn matched_len(self, input: Seq<Token>) -> nat {
        choose|l: nat| self.is_longest_match(input, l)
    }

    /// The part of `input` that is cached.
    pub open spec fn matched(self, input: Seq<Token>) -> Seq<Token> {
        input.take(self.matched_len(input) as int)
    }

    /// Whether node `i` of the tree ends exactly after `s`.
    pub open spec fn ends_at(self, i: int, s: Seq<Token>) -> bool {
        self.live(i) && self.prefix(i) == s
    }

    /// Whether `s` ends somewhere inside node `i` of the tree.
    pub open spec fn runs_over(self, i: int, s: Seq<Token>) -> bool {
        &&& self.live(i)
        &&& self.start(i) < s.len() < self.prefix(i).len()
        &&& s.is_prefix_of(self.prefix(i))
    }

    pub open spec fn has_end(self, s: Seq<Token>) -> bool {
        exists|i: int| #[trigger] self.ends_at(i, s)
    }

    /// The node that ends exactly after `s`, if there is one, else the one that `s` ends in.
    pub open spec fn node_over(self, s: Seq<Token>) -> int {
        if self.has_end(s) {
            choose|i: int| #[trigger] self.ends_at(i, s)
        } else {
            choose|i: int| #[trigger] self.runs_over(i, s)
        }
    }

    /// The cache indices of `s`, where the tree holds it.
    pub open spec fn indices_for(self, s: Seq<Token>) -> Seq<Token> {
        self.nodes[self.node_over(s)].indices.take(s.len() as int)
    }

    /// The cache indices that a handle to node `n` stands for, when `len` tokens are asked for.
    pub open spec fn indices_of(self, n: int, len: int) -> Seq<Token> {
        let all = self.nodes[n].indices;
        if len < all.len() {
            all.take(len)
        } else {
            all
        }
    }

    /// Whether all nodes that the first `len` tokens on the way to node `n` come from are
    /// still in the tree.
    pub open spec fn readable(self, n: int, len: int) -> bool {
        len > 0 ==> {
            &&& 0 <= n < self.nodes.len()
            &&& forall|a: int| #[trigger]
                self.on_path(a, n) && a != ROOT && self.start(a) < len ==> self.nodes[a].alive
        }
    }
}

/// Changes.
impl CacheModel {
    /// Marks the nodes that are walked through on the way along `s` as used now.
    pub open spec fn touch(self, s: Seq<Token>) -> CacheModel {
        CacheModel {
            nodes: Seq::new(
                self.nodes.len(),
                |i: int|
                    if i != ROOT && self.nodes[i].alive && self.prefix(i).is_prefix_of(s) {
                        NodeModel { timestamp: self.clock, ..self.nodes[i] }
                    } else {
                        self.nodes[i]
                    },
            ),
            clock: self.clock + 1,
            ..self
        }
    }

    /// Divides node `n` so that a new node, put between `n` and its parent, ends after the
    /// first `l` tokens of its prefix.
    pub open spec fn split(self, n: int, l: int, timestamp: nat) -> CacheModel {
        let fresh = NodeModel {
            prefix: self.prefix(n).take(l),
            indices: self.nodes[n].indices.take(l),
            parent: self.nodes[n].parent,
            ref_count: self.nodes[n].ref_count,
            timestamp,
            alive: true,
        };
        CacheModel {
            nodes: self.nodes.update(
                n,
                NodeModel { parent: Some(self.nodes.len() as int), ..self.nodes[n] },
            ).push(fresh),
            ..self
        }
    }

    /// Hangs a new leaf under node `n`. Its prefix is `s`; its own cache indices are `tail`.
    pub open spec fn add_leaf(self, n: int, s: Seq<Token>, tail: Seq<Token>) -> CacheModel {
        let fresh = NodeModel {
            prefix: s,
            indices: self.nodes[n].indices + tail,
            parent: Some(n),
            ref_count: 0,
            timestamp: self.clock,
            alive: true,
        };
        CacheModel { nodes: self.nodes.push(fresh), clock: self.clock + 1, ..self }
    }

    /// Takes node `i` out of the tree.
    pub open spec fn remove(self, i: int) -> CacheModel {
        CacheModel {
            nodes: self.nodes.update(i, NodeModel { alive: false, ..self.nodes[i] }),
            ..self
        }
    }

    /// Adds `d` to the reference count of the nodes on the way to node `n` that end after
    /// more than `low` tokens.
    pub open spec fn shift_refs(self, n: int, low: int, d: int) -> CacheModel {
        CacheModel {
            nodes: Seq::new(
                self.nodes.len(),
                |i: int|
                    if i != ROOT && self.nodes[i].alive && self.prefix(i).is_prefix_of(
                        self.prefix(n),
                    ) && self.prefix(i).len() > low {
                        NodeModel {
                            ref_count: (self.nodes[i].ref_count + d) as nat,
                            ..self.nodes[i]
                        }
                    } else {
                        self.nodes[i]
                    },
            ),
            ..self
        }
    }
}

/// Operations.
impl CacheModel {
    /// The cache after a match of `input`: the nodes walked through are marked as used, and
    /// a node that the match ends in the middle of is divided there.
    pub open spec fn after_match(self, input: Seq<Token>) -> CacheModel {
        let s = self.matched(input);
        if self.has_end(s) {
            self.touch(s)
        } else {
            self.touch(s).split(self.node_over(s), s.len() as int, self.clock)
        }
    }

    /// The node that a match of `input` ends at, in the cache after the match.
    pub open spec fn match_node(self, input: Seq<Token>) -> int {
        let s = self.matched(input);
        if self.has_end(s) {
            self.node_over(s)
        } else {
            self.nodes.len() as int
        }
    }

    /// How many of `n` tokens an insertion keeps: the whole pages.
    pub open spec fn insert_len(self, n: nat) -> nat {
        aligned_down(n, self.page_size)
    }

    /// The cache after the whole pages of `input` are inserted with their cache indices. What
    /// is cached already keeps the indices it has.
    pub open spec fn after_insert(self, input: Seq<Token>, indices: Seq<Token>) -> CacheModel {
        let len = self.insert_len(input.len()) as int;
        let s = input.take(len);
        let l = self.matched_len(s) as int;
        let matched = self.after_match(s);
        if l == len {
            matched
        } else {
            matched.add_leaf(self.match_node(s), s, indices.subrange(l, len))
        }
    }

    /// The node that ends the inserted prefix, in the cache after the insertion.
    pub open spec fn insert_node(self, input: Seq<Token>) -> int {
        let len = self.insert_len(input.len());
        let s = input.take(len as int);
        if self.matched_len(s) == len {
            self.match_node(s)
        } else {
            self.after_match(s).nodes.len() as int
        }
    }

    /// The cache after node `n` and all nodes above it are locked.
    pub open spec fn after_lock(self, n: int) -> CacheModel {
        self.shift_refs(n, 0, 1)
    }

    /// The cache after a lock on node `n` and all nodes above it is given back.
    pub open spec fn after_unlock(self, n: int) -> CacheModel {
        self.shift_refs(n, 0, -1)
    }

    /// Whether node `n` is in the tree, and its locks can be counted one further.
    pub open spec fn can_lock(self, n: int) -> bool {
        &&& self.live(n)
        &&& forall|i: int| #[trigger]
            self.live(i) && i != ROOT && self.prefix(i).is_prefix_of(self.prefix(n))
                ==> self.nodes[i].ref_count < usize::MAX
    }

    /// Whether node `n` is in the tree, and it and all nodes above it are locked.
    pub open spec fn can_unlock(self, n: int) -> bool {
        &&& self.live(n)
        &&& forall|i: int| #[trigger]
            self.live(i) && i != ROOT && self.prefix(i).is_prefix_of(self.prefix(n))
                ==> self.nodes[i].ref_count > 0
    }

    /// Whether node `i` may be evicted: an unlocked leaf of the tree.
    pub open spec fn evictable_leaf(self, i: int) -> bool {
        &&& i != ROOT
        &&& self.live(i)
        &&& self.nodes[i].ref_count == 0
        &&& self.is_leaf(i)
    }

    /// Whether node `i` was used before node `j`; among equals the lower id comes first.
    pub open spec fn before(self, i: int, j: int) -> bool {
        ||| self.nodes[i].timestamp < self.nodes[j].timestamp
        ||| self.nodes[i].timestamp == self.nodes[j].timestamp && i <= j
    }

    /// Whether node `i` is the least recently used of the nodes that may be evicted.
    pub open spec fn is_lru_leaf(self, i: int) -> bool {
        &&& self.evictable_leaf(i)
        &&& forall|j: int| #[trigger] self.evictable_leaf(j) ==> self.before(i, j)
    }

    pub open spec fn lru_leaf(self) -> int {
        choose|i: int| self.is_lru_leaf(i)
    }

    /// Removes least recently used leaves, one at a time, until they add up to `size` tokens
    /// or none is left. Gives the cache after that and the cache indices of what was removed.
    pub open spec fn evict(self, size: nat) -> (CacheModel, Seq<Token>)
        decreases size,
    {
        let i = self.lru_leaf();
        let len = self.key_len(i);
        if size == 0 || !self.is_lru_leaf(i) || len <= 0 {
            (self, Seq::empty())
        } else {
            let rest = if len < size {
                (size - len) as nat
            } else {
                0
            };
            let (m, out) = self.remove(i).evict(rest);
            (m, self.value(i) + out)
        }
    }

    /// The nodes of the tree below id `n`, as a dump lists them.
    pub open spec fn dump_below(self, n: nat) -> Seq<DumpEntry>
        decreases n,
    {
        if n == 0 {
            Seq::empty()
        } else {
            let i = n - 1;
            let rest = self.dump_below(i as nat);
            if self.nodes[i].alive {
                rest.push(
                    (
                        i,
                        self.nodes[i].parent,
                        self.key(i),
                        self.value(i),
                        self.nodes[i].ref_count,
                    ),
                )
            } else {
                rest
            }
        }
    }

    /// The nodes of the tree, as a dump lists them.
    pub open spec fn dump(self) -> Seq<DumpEntry> {
        self.dump_below(self.nodes.len())
    }
}

/// Lock accounting.
impl CacheModel {
    /// The locks of the nodes of the tree that hang directly under node `n`.
    pub open spec fn child_locks(self, n: int) -> int {
        sum_below(
            |i: int|
                if i != ROOT && self.live(i) && self.parent(i) == n {
                    self.nodes[i].ref_count as int
                } else {
                    0
                },
            self.nodes.len(),
        )
    }

    /// The locks that were taken on node `n` itself, and not on a node under it.
    pub open spec fn own_locks(self, n: int) -> int {
        self.nodes[n].ref_count - self.child_locks(n)
    }

    /// Whether every node of the tree has at least the locks of those under it. So it is as
    /// long as only handles that were locked before are unlocked.
    pub open spec fn balanced(self) -> bool {
        forall|n: int| n != ROOT && #[trigger] self.live(n) ==> self.own_locks(n) >= 0
    }
}

} // verus!
