//! The prefix cache for one thread.

use crate::align::lemma_aligned_down;
use crate::changes::{lemma_lengths, lemma_sizes_add_up};
use crate::dump::{rows_view, DumpRow};
use crate::integrity::lemma_inv_integral;
use crate::matching::lemma_matched_place;
use crate::model::{empty_cache, CacheModel, NodeId, Token};
use crate::tree::RadixTree;
use crate::trie::lemma_path_prefix;
use vstd::prelude::*;
use vstd::slice::slice_to_vec;

verus! {

/// How many tokens the cache holds.
#[derive(Debug, Clone, Copy, PartialEq, Eq, Structural)]
pub struct SizeInfo {
    /// Tokens in nodes that no lock protects.
    pub evictable_size: usize,
    /// Tokens in nodes that a lock protects.
    pub protected_size: usize,
}

impl SizeInfo {
    /// All tokens.
    pub fn total_size(self) -> (r: usize)
        requires
            self.evictable_size + self.protected_size <= usize::MAX,
        ensures
            r == self.evictable_size + self.protected_size,
    {
        self.evictable_size + self.protected_size
    }
}

/// A place in the tree, and how many tokens were matched on the way to it.
#[derive(Debug, Clone, Copy, PartialEq, Eq, Structural)]
pub struct RadixCacheHandle {
    /// How many tokens were matched.
    pub cached_len: usize,
    node: NodeId,
}

impl RadixCacheHandle {
    /// The node that the handle points to.
    pub closed spec fn id(self) -> int {
        self.node as int
    }

    /// How many tokens the handle stands for.
    pub closed spec fn len(self) -> int {
        self.cached_len as int
    }

    /// How many tokens the handle stands for, for callers in verified code: they cannot read a
    /// field of a type that has others hidden.
    pub fn cached_len(self) -> (r: usize)
        ensures
            r == self.len(),
    {
        self.cached_len
    }

    /// The id of the node that the handle points to.
    pub fn node_id(self) -> (r: usize)
        ensures
            r == self.id(),
    {
        self.node
    }
}

/// What a match or a lookup finds.
#[derive(Debug, PartialEq, Eq)]
pub struct MatchResult {
    pub handle: RadixCacheHandle,
}

/// What a lookup finds, with the cache indices.
#[derive(Debug, PartialEq, Eq)]
pub struct LookupResult {
    /// How many tokens are cached.
    pub cached_len: usize,
    /// The cache index of each of them.
    pub indices: Vec<Token>,
}

/// What an insertion did.
#[derive(Debug, PartialEq, Eq)]
pub struct InsertResult {
    /// How many tokens were cached before.
    pub cached_len: usize,
    /// The end of the inserted prefix.
    pub handle: RadixCacheHandle,
}

impl Clone for MatchResult {
    fn clone(&self) -> (r: Self)
        ensures
            r == *self,
    {
        MatchResult { handle: self.handle }
    }
}

impl Clone for LookupResult {
    fn clone(&self) -> (r: Self)
        ensures
            r.cached_len == self.cached_len,
            r.indices@ == self.indices@,
    {
        LookupResult {
            cached_len: self.cached_len,
            indices: slice_to_vec(self.indices.as_slice()),
        }
    }
}

impl Clone for InsertResult {
    fn clone(&self) -> (r: Self)
        ensures
            r == *self,
    {
        InsertResult { cached_len: self.cached_len, handle: self.handle }
    }
}

/// What `r` has to be after a match of `input` in cache `m`.
pub open spec fn is_match(m: CacheModel, input: Seq<Token>, r: MatchResult) -> bool {
    &&& r.handle.id() == m.match_node(input)
    &&& r.handle.len() == m.matched_len(input)
}

/// What `r` has to be after a lookup of `input` in cache `m`.
pub open spec fn is_lookup(m: CacheModel, input: Seq<Token>, r: MatchResult) -> bool {
    &&& r.handle.id() == m.node_over(m.matched(input))
    &&& r.handle.len() == m.matched_len(input)
}

/// What `r` has to be after an insertion of `input` into cache `m`.
pub open spec fn is_insert(m: CacheModel, input: Seq<Token>, r: InsertResult) -> bool {
    let len = m.insert_len(input.len());
    &&& r.cached_len == m.matched_len(input.take(len as int))
    &&& r.handle.len() == len
    &&& r.handle.id() == m.insert_node(input)
}

/// The fields of a handle are what contracts call its length and its node. Only this module can
/// say so: elsewhere the fields of a type that has some hidden cannot be spoken of.
proof fn law_handle_fields(handle: RadixCacheHandle)
    ensures
        handle.len() == handle.cached_len,
        handle.id() == handle.node,
{
}

/// The length in the handle of a match, or of a lookup, is that of the longest run of whole pages
/// at the start of the input that a node of the tree goes on from.
proof fn law_found_length(m: CacheModel, input: Seq<Token>, r: MatchResult, i: int, k: nat)
    requires
        m.wf(),
        is_match(m, input, r) || is_lookup(m, input, r),
    ensures
        r.handle.cached_len == m.matched_len(input),
        r.handle.cached_len <= input.len(),
        r.handle.cached_len as nat % m.page_size == 0,
        exists|j: int|
            0 <= j < m.nodes.len() && m.nodes[j].alive && input.take(
                r.handle.cached_len as int,
            ).is_prefix_of(#[trigger] m.nodes[j].prefix),
        0 <= i < m.nodes.len() && m.nodes[i].alive && k <= input.len() && k % m.page_size == 0
            && input.take(k as int).is_prefix_of(m.nodes[i].prefix) ==> k <= r.handle.cached_len,
{
    lemma_matched_place(m, input);
    let j = choose|j: int| #[trigger] m.live(j) && m.matched(input).is_prefix_of(m.prefix(j));
    assert(input.take(r.handle.cached_len as int).is_prefix_of(m.nodes[j].prefix));
    if m.live(i) && k <= input.len() && k % m.page_size == 0 && input.take(k as int).is_prefix_of(
        m.prefix(i),
    ) {
        assert(m.covers(input, k));
    }
}

/// The length in the handle of an insertion is that of all whole pages of the input.
proof fn law_inserted_length(m: CacheModel, input: Seq<Token>, r: InsertResult)
    requires
        m.wf(),
        is_insert(m, input, r),
    ensures
        r.handle.cached_len == m.insert_len(input.len()),
        r.handle.cached_len <= input.len() < r.handle.cached_len + m.page_size,
        r.handle.cached_len as nat % m.page_size == 0,
{
    lemma_aligned_down(input.len(), m.page_size);
}

/// A match of `input` that takes cache `was` to `now`, or that the clock has no room for.
pub open spec fn match_step(
    was: CacheModel,
    now: CacheModel,
    input: Seq<Token>,
    r: Option<MatchResult>,
) -> bool {
    match r {
        Some(found) => {
            &&& was.clock < u64::MAX
            &&& now == was.after_match(input)
            &&& is_match(was, input, found)
        },
        None => was.clock >= u64::MAX && now == was,
    }
}

/// An insertion that takes cache `was` to `now`, or that is refused: not one index for each
/// token, or no room for the sizes or the clock.
pub open spec fn insert_step(
    was: CacheModel,
    now: CacheModel,
    input: Seq<Token>,
    indices: Seq<Token>,
    r: Option<InsertResult>,
) -> bool {
    let possible = input.len() == indices.len() && was.after_insert(input, indices).fits();
    match r {
        Some(done) => {
            &&& possible
            &&& now == was.after_insert(input, indices)
            &&& is_insert(was, input, done)
        },
        None => !possible && now == was,
    }
}

/// A lock on node `n` that takes cache `was` to `now`, or is refused.
pub open spec fn lock_step(was: CacheModel, now: CacheModel, n: int, r: bool) -> bool {
    &&& r == was.can_lock(n)
    &&& now == if r {
        was.after_lock(n)
    } else {
        was
    }
}

/// The return of a lock on node `n` that takes cache `was` to `now`, or is refused.
pub open spec fn unlock_step(was: CacheModel, now: CacheModel, n: int, r: bool) -> bool {
    &&& r == was.can_unlock(n)
    &&& now == if r {
        was.after_unlock(n)
    } else {
        was
    }
}

/// The cache indices that a handle stands for in cache `m`, unless they are gone.
pub open spec fn read_step(m: CacheModel, handle: RadixCacheHandle, r: Option<Vec<Token>>) -> bool {
    match r {
        Some(indices) => {
            &&& m.readable(handle.id(), handle.len())
            &&& indices@ == m.indices_of(handle.id(), handle.len())
        },
        None => !m.readable(handle.id(), handle.len()),
    }
}

/// The cache indices that a handle stands for in cache `m`, written over `was`, unless they are
/// gone.
pub open spec fn write_step(
    m: CacheModel,
    handle: RadixCacheHandle,
    was: Seq<Token>,
    now: Seq<Token>,
    r: bool,
) -> bool {
    &&& r == m.readable(handle.id(), handle.len())
    &&& now == if r {
        m.indices_of(handle.id(), handle.len())
    } else {
        was
    }
}

/// An eviction that takes cache `was` to `now`, or that there are not enough tokens for.
pub open spec fn evict_step(
    was: CacheModel,
    now: CacheModel,
    size: nat,
    r: Option<Vec<Token>>,
) -> bool {
    match r {
        Some(evicted) => {
            &&& size <= was.drainable_size()
            &&& now == was.evict(size).0
            &&& evicted@ == was.evict(size).1
            &&& evicted@.len() >= size
        },
        None => size > was.drainable_size() && now == was,
    }
}

/// A cache of token prefixes in a radix tree.
///
/// - Edges are compressed: a node holds a run of tokens and a cache index for each.
/// - What is matched and inserted is rounded down to whole pages.
/// - Handles lock what they point to, with all that is above it, against eviction.
/// - Eviction takes unlocked leaves, the least recently used first, and may take more than it is
///   asked for.
#[derive(Debug)]
pub struct RadixPrefixCache {
    tree: RadixTree,
}

impl View for RadixPrefixCache {
    type V = CacheModel;

    closed spec fn view(&self) -> CacheModel {
        self.tree@
    }
}

impl RadixPrefixCache {
    #[verifier::type_invariant]
    spec fn in_order(&self) -> bool {
        self.tree.inv()
    }

    /// An empty cache with pages of `page_size` tokens.
    pub fn new(page_size: usize) -> (r: Self)
        requires
            page_size > 0,
        ensures
            r@ == empty_cache(page_size as nat),
            r@.wf(),
            r@.fits(),
    {
        Self { tree: RadixTree::new(page_size) }
    }

    /// How many tokens make a page.
    pub fn page_size(&self) -> (r: usize)
        ensures
            r == self@.page_size,
            r > 0,
    {
        proof {
            use_type_invariant(self);
        }
        self.tree.page_size
    }

    /// How many tokens the cache holds.
    pub fn size_info(&self) -> (r: SizeInfo)
        ensures
            r.evictable_size == self@.evictable_size(),
            r.protected_size == self@.protected_size(),
            r.evictable_size + r.protected_size == self@.total_size(),
            self@.wf(),
            self@.fits(),
    {
        proof {
            use_type_invariant(self);
            lemma_sizes_add_up(self.tree@);
        }
        SizeInfo {
            evictable_size: self.tree.evictable_size,
            protected_size: self.tree.protected_size,
        }
    }

    /// Does nothing: every cache is well-formed, and callers in other modules learn it here.
    pub(crate) fn attest(&self)
        ensures
            self@.wf(),
            self@.fits(),
    {
        proof {
            use_type_invariant(self);
        }
    }

    /// Takes the tree out, and leaves an empty one until the operation has put it back. Should the
    /// operation panic, which it does for no caller that meets its conditions, the contents are
    /// gone.
    fn take_tree(&mut self) -> (r: RadixTree)
        ensures
            r.inv(),
            r@ == old(self)@,
    {
        proof {
            use_type_invariant(&*self);
        }
        let mut tree = RadixTree::new(1);
        std::mem::swap(&mut self.tree, &mut tree);
        tree
    }

    /// Finds the longest cached prefix of `input_ids`.
    ///
    /// Marks the nodes on the way as used now, and divides a node that the match ends in.
    pub fn match_prefix(&mut self, input_ids: &[Token]) -> (r: MatchResult)
        requires
            old(self)@.clock < u64::MAX,
        ensures
            final(self)@ == old(self)@.after_match(input_ids@),
            is_match(old(self)@, input_ids@, r),
            final(self)@.wf(),
            final(self)@.fits(),
    {
        let mut tree = self.take_tree();
        let (node, prefix_len) = tree.tree_walk(input_ids);
        self.tree = tree;
        MatchResult { handle: RadixCacheHandle { cached_len: prefix_len, node } }
    }

    /// Finds the longest cached prefix of `input_ids`, and changes nothing.
    ///
    /// The handle may point to a node that goes on after the match.
    pub fn lookup_prefix(&self, input_ids: &[Token]) -> (r: MatchResult)
        ensures
            is_lookup(self@, input_ids@, r),
            self@.live(r.handle.id()),
            self@.readable(r.handle.id(), r.handle.len()),
            self@.indices_of(r.handle.id(), r.handle.len()) == self@.indices_for(
                self@.matched(input_ids@),
            ),
    {
        proof {
            use_type_invariant(self);
        }
        let (node, prefix_len) = self.tree.read_tree_walk(input_ids);
        proof {
            let m = self.tree@;
            let n = node as int;
            assert forall|a: int| #[trigger] m.on_path(a, n) implies m.nodes[a].alive by {
                lemma_path_prefix(m, a, n);
            }
            lemma_matched_place(m, input_ids@);
            lemma_lengths(m, n);
            assert(m.nodes[n].indices =~= m.nodes[n].indices.take(m.prefix(n).len() as int));
        }
        MatchResult { handle: RadixCacheHandle { cached_len: prefix_len, node } }
    }

    /// Finds the cache indices of the longest cached prefix of `input_ids`, and changes nothing.
    pub fn lookup_indices(&self, input_ids: &[Token]) -> (r: LookupResult)
        ensures
            r.cached_len == self@.matched_len(input_ids@),
            r.indices@ == self@.indices_for(self@.matched(input_ids@)),
    {
        let matched = self.lookup_prefix(input_ids);
        LookupResult {
            cached_len: matched.handle.cached_len,
            indices: self.get_matched_indices(matched.handle),
        }
    }

    /// Writes the cache indices of the longest cached prefix of `input_ids` to `output`, and
    /// gives how many there are.
    pub fn lookup_indices_into(&self, input_ids: &[Token], output: &mut Vec<Token>) -> (r: usize)
        ensures
            r == self@.matched_len(input_ids@),
            final(output)@ == self@.indices_for(self@.matched(input_ids@)),
    {
        let matched = self.lookup_prefix(input_ids);
        self.get_matched_indices_into(matched.handle, output);
        matched.handle.cached_len
    }

    /// Inserts the whole pages of `input_ids`, with a cache index for each token.
    ///
    /// What is cached already keeps the indices it has: the result says how much that is.
    pub fn insert_prefix(&mut self, input_ids: &[Token], indices: &[Token]) -> (r: InsertResult)
        requires
            input_ids@.len() == indices@.len(),
            old(self)@.after_insert(input_ids@, indices@).fits(),
        ensures
            final(self)@ == old(self)@.after_insert(input_ids@, indices@),
            is_insert(old(self)@, input_ids@, r),
            final(self)@.wf(),
            final(self)@.fits(),
    {
        let mut tree = self.take_tree();
        let (node, prefix_len, insert_len) = tree.insert(input_ids, indices);
        self.tree = tree;
        InsertResult {
            cached_len: prefix_len,
            handle: RadixCacheHandle { cached_len: insert_len, node },
        }
    }

    /// Locks the node of a handle, and all nodes above it, against eviction.
    pub fn lock_handle(&mut self, handle: RadixCacheHandle)
        requires
            old(self)@.can_lock(handle.id()),
        ensures
            final(self)@ == old(self)@.after_lock(handle.id()),
            final(self)@.wf(),
            final(self)@.fits(),
    {
        let mut tree = self.take_tree();
        tree.lock(handle.node);
        self.tree = tree;
    }

    /// Gives a lock back.
    pub fn unlock_handle(&mut self, handle: RadixCacheHandle)
        requires
            old(self)@.can_unlock(handle.id()),
        ensures
            final(self)@ == old(self)@.after_unlock(handle.id()),
            final(self)@.wf(),
            final(self)@.fits(),
    {
        let mut tree = self.take_tree();
        tree.unlock(handle.node);
        self.tree = tree;
    }

    /// The cache indices of the tokens that a handle stands for.
    ///
    /// The nodes that they come from must not have been evicted.
    pub fn get_matched_indices(&self, handle: RadixCacheHandle) -> (r: Vec<Token>)
        requires
            self@.readable(handle.id(), handle.len()),
        ensures
            r@ == self@.indices_of(handle.id(), handle.len()),
    {
        let mut result: Vec<Token> = Vec::new();
        self.append_matched_indices(handle, &mut result);
        result
    }

    /// Writes the cache indices of the tokens that a handle stands for to `output`, in place of
    /// what it held.
    pub fn get_matched_indices_into(&self, handle: RadixCacheHandle, output: &mut Vec<Token>)
        requires
            self@.readable(handle.id(), handle.len()),
        ensures
            final(output)@ == self@.indices_of(handle.id(), handle.len()),
    {
        output.clear();
        self.append_matched_indices(handle, output);
    }

    fn append_matched_indices(&self, handle: RadixCacheHandle, output: &mut Vec<Token>)
        requires
            self@.readable(handle.id(), handle.len()),
        ensures
            final(output)@ == old(output)@ + self@.indices_of(handle.id(), handle.len()),
    {
        proof {
            use_type_invariant(self);
            lemma_sizes_add_up(self.tree@);
        }
        // No handle stands for more than the cache holds.
        let held = self.tree.evictable_size + self.tree.protected_size;
        let room = if handle.cached_len < held {
            handle.cached_len
        } else {
            held
        };
        output.reserve(room);
        self.tree.append_node_indices_from_root(handle.node, handle.cached_len, output);
    }

    /// Evicts at least `size` tokens from unlocked leaves, the least recently used first, and
    /// gives the cache indices of what was evicted.
    pub fn evict(&mut self, size: usize) -> (r: Vec<Token>)
        requires
            size <= old(self)@.drainable_size(),
        ensures
            final(self)@ == old(self)@.evict(size as nat).0,
            r@ == old(self)@.evict(size as nat).1,
            r@.len() >= size,
            final(self)@.wf(),
            final(self)@.fits(),
    {
        let mut tree = self.take_tree();
        let evicted = tree.evict(size);
        self.tree = tree;
        evicted
    }

    /// How many tokens `evict` can get at: those in nodes with no lock on or below them.
    pub fn drainable_size(&self) -> (r: usize)
        ensures
            r == self@.drainable_size(),
    {
        proof {
            use_type_invariant(self);
        }
        self.tree.drainable_size()
    }

    /// Empties the cache.
    pub fn reset(&mut self)
        ensures
            final(self)@ == empty_cache(old(self)@.page_size),
            final(self)@.wf(),
            final(self)@.fits(),
    {
        *self = Self::new(self.page_size());
    }

    /// Whether the root is in order, and so is every node that can be reached from it, and
    /// whether the sizes kept are those of these nodes.
    pub closed spec fn intact(&self) -> bool {
        self.tree.integral()
    }

    /// Checks whether the cache is intact. There is nothing to find in a cache that only these
    /// methods have changed.
    pub fn check_integrity(&self) -> (r: Result<(), String>)
        ensures
            r is Ok <==> self.intact(),
            r is Ok,
            self@.wf(),
            self@.fits(),
    {
        proof {
            use_type_invariant(self);
            lemma_inv_integral(self.tree);
        }
        match self.tree.check_integrity() {
            Ok(_) => Ok(()),
            Err(e) => Err(e.message()),
        }
    }

    /// The nodes of the tree in the order of their ids: id, parent, key, value and reference
    /// count.
    pub fn debug_dump(&self) -> (r: Vec<DumpRow>)
        ensures
            rows_view(r@) == self@.dump(),
    {
        proof {
            use_type_invariant(self);
        }
        self.tree.debug_dump()
    }
}

/// The same operations for callers who cannot tell beforehand whether they are possible. What
/// is not possible is refused, and changes nothing.
impl RadixPrefixCache {
    /// [`RadixPrefixCache::match_prefix`], or nothing if the clock has run out.
    pub fn try_match_prefix(&mut self, input_ids: &[Token]) -> (r: Option<MatchResult>)
        ensures
            match_step(old(self)@, final(self)@, input_ids@, r),
            final(self)@.wf(),
            final(self)@.fits(),
    {
        proof {
            use_type_invariant(&*self);
        }
        if self.tree.next_timestamp == u64::MAX {
            return None;
        }
        Some(self.match_prefix(input_ids))
    }

    /// [`RadixPrefixCache::insert_prefix`], or nothing if there is not one index for each token, or
    /// if the sizes or the clock would run out.
    pub fn try_insert_prefix(&mut self, input_ids: &[Token], indices: &[Token]) -> (r: Option<
        InsertResult,
    >)
        ensures
            insert_step(old(self)@, final(self)@, input_ids@, indices@, r),
            final(self)@.wf(),
            final(self)@.fits(),
    {
        proof {
            use_type_invariant(&*self);
        }
        if input_ids.len() != indices.len() || !self.tree.can_insert(input_ids, indices) {
            return None;
        }
        Some(self.insert_prefix(input_ids, indices))
    }

    /// [`RadixPrefixCache::lock_handle`], unless the node has been evicted, or a count of locks would
    /// run out.
    pub fn try_lock_handle(&mut self, handle: RadixCacheHandle) -> (r: bool)
        ensures
            lock_step(old(self)@, final(self)@, handle.id(), r),
            final(self)@.wf(),
            final(self)@.fits(),
    {
        proof {
            use_type_invariant(&*self);
        }
        if !self.tree.path_locks_within(handle.node, 0, usize::MAX - 1) {
            return false;
        }
        self.lock_handle(handle);
        true
    }

    /// [`RadixPrefixCache::unlock_handle`], unless there is no lock to give back.
    pub fn try_unlock_handle(&mut self, handle: RadixCacheHandle) -> (r: bool)
        ensures
            unlock_step(old(self)@, final(self)@, handle.id(), r),
            final(self)@.wf(),
            final(self)@.fits(),
    {
        proof {
            use_type_invariant(&*self);
        }
        if !self.tree.path_locks_within(handle.node, 1, usize::MAX) {
            return false;
        }
        self.unlock_handle(handle);
        true
    }

    /// [`RadixPrefixCache::get_matched_indices`], or nothing if some have been evicted.
    pub fn try_get_matched_indices(&self, handle: RadixCacheHandle) -> (r: Option<Vec<Token>>)
        ensures
            read_step(self@, handle, r),
    {
        proof {
            use_type_invariant(self);
        }
        match self.tree.readable_len(handle.node, handle.cached_len) {
            Some(_) => Some(self.get_matched_indices(handle)),
            None => None,
        }
    }

    /// [`RadixPrefixCache::get_matched_indices_into`], unless some have been evicted.
    pub fn try_get_matched_indices_into(
        &self,
        handle: RadixCacheHandle,
        output: &mut Vec<Token>,
    ) -> (r: bool)
        ensures
            write_step(self@, handle, old(output)@, final(output)@, r),
    {
        proof {
            use_type_invariant(self);
        }
        match self.tree.readable_len(handle.node, handle.cached_len) {
            Some(_) => {
                self.get_matched_indices_into(handle, output);
                true
            },
            None => false,
        }
    }

    /// [`RadixPrefixCache::evict`], or nothing if it cannot get at so many tokens.
    pub fn try_evict(&mut self, size: usize) -> (r: Option<Vec<Token>>)
        ensures
            evict_step(old(self)@, final(self)@, size as nat, r),
            final(self)@.wf(),
            final(self)@.fits(),
    {
        proof {
            use_type_invariant(&*self);
        }
        if size > self.drainable_size() {
            return None;
        }
        Some(self.evict(size))
    }
}

impl Clone for RadixPrefixCache {
    fn clone(&self) -> (r: Self)
        ensures
            r@ == self@,
    {
        proof {
            use_type_invariant(self);
        }
        Self { tree: self.tree.clone() }
    }
}

} // verus!
