//! A check of the tree against what should hold of it.
//!
//! The check trusts nothing but that ids are ids of nodes: it finds out whether the nodes that
//! can be reached from the root are in order, and whether the sizes kept are theirs.

use crate::model::{NodeId, Token, ROOT};
use crate::span::same_tokens;
use crate::sums::{
    lemma_sum_add, lemma_sum_change, lemma_sum_le, lemma_sum_nonneg, lemma_sum_same, lemma_sum_zero,
    sum_below,
};
use crate::text::{decimal, push_decimal};
use crate::tree::RadixTree;
use crate::trie::lemma_page_fits;
use std::collections::HashSet;
use vstd::prelude::*;
use vstd::string::StringExecFns;

verus! {

/// Something that should not be.
#[derive(Debug, Clone, Copy, PartialEq, Eq, Structural)]
pub enum IntegrityError {
    /// The root has a parent, or a reference count other than one.
    Root,
    /// A node is come to a second time.
    Duplicate(NodeId),
    /// A node that can be reached was evicted.
    Dead(NodeId),
    /// A node holds no tokens, or not one cache index for each.
    Length(NodeId),
    /// A node does not hold whole pages.
    Alignment(NodeId),
    /// A node can be reached from one that is not its parent.
    Parent(NodeId),
    /// A node is listed under a page that it does not start with.
    ChildKey(NodeId),
    /// The sizes that were counted are not those that were kept.
    Sizes {
        evictable: usize,
        protected: usize,
        stored_evictable: usize,
        stored_protected: usize,
    },
}

impl IntegrityError {
    /// The text of the message.
    pub open spec fn text(self) -> Seq<char> {
        match self {
            IntegrityError::Root => "root must have no parent and ref_count=1"@,
            IntegrityError::Duplicate(n) => "cycle or duplicate child reference at node "@ + decimal(
                n as nat,
            ),
            IntegrityError::Dead(n) => "reachable node "@ + decimal(n as nat) + " is marked dead"@,
            IntegrityError::Length(n) => "invalid key/value length at node "@ + decimal(n as nat),
            IntegrityError::Alignment(n) => "node "@ + decimal(n as nat)
                + " length is not page aligned"@,
            IntegrityError::Parent(n) => "child "@ + decimal(n as nat) + " parent mismatch"@,
            IntegrityError::ChildKey(n) => "child map key mismatch for child "@ + decimal(n as nat),
            IntegrityError::Sizes { evictable, protected, stored_evictable, stored_protected } => {
                "size mismatch: computed evictable/protected=("@ + decimal(evictable as nat) + ","@
                    + decimal(protected as nat) + "), stored=("@ + decimal(stored_evictable as nat)
                    + ","@ + decimal(stored_protected as nat) + ")"@
            },
        }
    }

    /// The message.
    pub fn message(&self) -> (r: String)
        ensures
            r@ == self.text(),
    {
        match *self {
            IntegrityError::Root => String::from_str("root must have no parent and ref_count=1"),
            IntegrityError::Duplicate(n) => {
                let mut text = String::from_str("cycle or duplicate child reference at node ");
                push_decimal(&mut text, n);
                text
            },
            IntegrityError::Dead(n) => {
                let mut text = String::from_str("reachable node ");
                push_decimal(&mut text, n);
                text.append(" is marked dead");
                text
            },
            IntegrityError::Length(n) => {
                let mut text = String::from_str("invalid key/value length at node ");
                push_decimal(&mut text, n);
                text
            },
            IntegrityError::Alignment(n) => {
                let mut text = String::from_str("node ");
                push_decimal(&mut text, n);
                text.append(" length is not page aligned");
                text
            },
            IntegrityError::Parent(n) => {
                let mut text = String::from_str("child ");
                push_decimal(&mut text, n);
                text.append(" parent mismatch");
                text
            },
            IntegrityError::ChildKey(n) => {
                let mut text = String::from_str("child map key mismatch for child ");
                push_decimal(&mut text, n);
                text
            },
            IntegrityError::Sizes { evictable, protected, stored_evictable, stored_protected } => {
                let mut text = String::from_str("size mismatch: computed evictable/protected=(");
                push_decimal(&mut text, evictable);
                text.append(",");
                push_decimal(&mut text, protected);
                text.append("), stored=(");
                push_decimal(&mut text, stored_evictable);
                text.append(",");
                push_decimal(&mut text, stored_protected);
                text.append(")");
                text
            },
        }
    }
}

/// What is read off the nodes alone, whether they are in order or not.
impl RadixTree {
    /// Whether node `c` is listed under node `a`, for page `k`.
    pub open spec fn entry_to(&self, a: int, k: Seq<Token>, c: int) -> bool {
        &&& 0 <= a < self.nodes@.len()
        &&& self.nodes@[a].children@.dom().contains(k)
        &&& self.nodes@[a].children@[k] == c
    }

    /// Whether node `c` is listed under node `a`.
    pub open spec fn leads_to(&self, a: int, c: int) -> bool {
        exists|k: Seq<Token>| self.entry_to(a, k, c)
    }

    /// Whether each node of `way` is listed under the one before it, from node `from` on.
    pub open spec fn is_way(&self, from: int, way: Seq<int>) -> bool {
        &&& way.len() > 0
        &&& way[0] == from
        &&& forall|j: int| 0 < j < way.len() ==> self.leads_to(way[j - 1], #[trigger] way[j])
    }

    /// Whether a run of entries leads from node `from` to node `i`.
    pub open spec fn under(&self, from: int, i: int) -> bool {
        exists|way: Seq<int>| #[trigger] self.is_way(from, way) && way.last() == i
    }

    /// The nodes that runs of entries lead to from node `from`.
    pub open spec fn below(&self, from: int) -> Set<int> {
        Set::new(|i: int| self.under(from, i))
    }

    /// Whether node `i` can be reached from the root.
    pub open spec fn reaches(&self, i: int) -> bool {
        self.under(ROOT as int, i)
    }

    /// The first page of a run of tokens, or all of it where it is shorter.
    pub open spec fn first_page(&self, tokens: Seq<Token>) -> Seq<Token> {
        if tokens.len() < self.page_size {
            tokens
        } else {
            tokens.take(self.page_size as int)
        }
    }

    /// Whether the entry for page `k` under node `a` is a node that belongs there.
    pub open spec fn entry_in_order(&self, a: int, k: Seq<Token>) -> bool {
        let c = self.nodes@[a].children@[k] as int;
        &&& self.nodes@[c].parent == Some(a as usize)
        &&& self.first_page(self.nodes@[c].key@) == k
    }

    /// Whether node `i` holds what a node should, and lists only nodes that belong there.
    pub open spec fn in_order(&self, i: int) -> bool {
        let n = self.nodes@[i];
        &&& n.alive
        &&& i != ROOT ==> {
            &&& n.key@.len() > 0
            &&& n.key@.len() == n.value@.len()
            &&& n.key@.len() % self.page_size as nat == 0
        }
        &&& forall|k: Seq<Token>|
            n.children@.dom().contains(k) ==> #[trigger] self.entry_in_order(i, k)
    }

    pub open spec fn raw_evictable(&self, i: int) -> int {
        if i != ROOT && self.nodes@[i].ref_count == 0 {
            self.nodes@[i].key@.len() as int
        } else {
            0
        }
    }

    pub open spec fn raw_protected(&self, i: int) -> int {
        if i != ROOT && self.nodes@[i].ref_count != 0 {
            self.nodes@[i].key@.len() as int
        } else {
            0
        }
    }

    /// The tokens in unlocked nodes of `s`.
    pub open spec fn evictable_in(&self, s: Set<int>) -> int {
        sum_below(
            |i: int|
                if s.contains(i) {
                    self.raw_evictable(i)
                } else {
                    0
                },
            self.nodes@.len(),
        )
    }

    /// The tokens in locked nodes of `s`.
    pub open spec fn protected_in(&self, s: Set<int>) -> int {
        sum_below(
            |i: int|
                if s.contains(i) {
                    self.raw_protected(i)
                } else {
                    0
                },
            self.nodes@.len(),
        )
    }

    /// The tokens in unlocked nodes that can be reached.
    pub open spec fn reached_evictable(&self) -> int {
        self.evictable_in(self.below(ROOT as int))
    }

    /// The tokens in locked nodes that can be reached.
    pub open spec fn reached_protected(&self) -> int {
        self.protected_in(self.below(ROOT as int))
    }

    pub open spec fn root_in_order(&self) -> bool {
        self.nodes@[0].parent is None && self.nodes@[0].ref_count == 1
    }

    /// Whether all nodes are in order that runs of entries lead to from node `from`.
    pub open spec fn all_in_order(&self, from: int) -> bool {
        forall|i: int| #[trigger] self.under(from, i) ==> self.in_order(i)
    }

    /// Whether the tree is as it should be.
    pub open spec fn integral(&self) -> bool {
        &&& self.root_in_order()
        &&& self.all_in_order(ROOT as int)
        &&& self.evictable_size == self.reached_evictable()
        &&& self.protected_size == self.reached_protected()
    }

    /// Whether `e` is wrong with a node that a run of entries leads to from node `from`.
    pub open spec fn faulty(&self, from: int, e: IntegrityError) -> bool {
        match e {
            IntegrityError::Dead(n) => self.under(from, n as int) && !self.nodes@[n as int].alive,
            IntegrityError::Length(n) => {
                let x = self.nodes@[n as int];
                n != ROOT && self.under(from, n as int) && (x.key@.len() == 0 || x.key@.len()
                    != x.value@.len())
            },
            IntegrityError::Alignment(n) => n != ROOT && self.under(from, n as int)
                && self.nodes@[n as int].key@.len() % self.page_size as nat != 0,
            IntegrityError::Parent(n) => exists|a: int, k: Seq<Token>|
                self.under(from, a) && #[trigger] self.entry_to(a, k, n as int)
                    && self.nodes@[n as int].parent != Some(a as usize),
            IntegrityError::ChildKey(n) => exists|a: int, k: Seq<Token>|
                self.under(from, a) && #[trigger] self.entry_to(a, k, n as int) && self.first_page(
                    self.nodes@[n as int].key@,
                ) != k,
            _ => false,
        }
    }

    /// Whether `e` is wrong with the tree. From the root no node is come to a second time before
    /// something else is found.
    pub open spec fn suffers(&self, e: IntegrityError) -> bool {
        match e {
            IntegrityError::Root => !self.root_in_order(),
            IntegrityError::Sizes { evictable, protected, stored_evictable, stored_protected } => {
                &&& evictable == self.reached_evictable()
                &&& protected == self.reached_protected()
                &&& stored_evictable == self.evictable_size
                &&& stored_protected == self.protected_size
                &&& evictable != stored_evictable || protected != stored_protected
            },
            _ => self.faulty(ROOT as int, e),
        }
    }

    /// What a check from node `from` on relies on: ids are ids of nodes, and what hangs under its
    /// parent has tokens that decide where.
    pub open spec fn walkable(&self, from: int) -> bool {
        &&& self.page_size > 0
        &&& 0 <= from < self.nodes@.len()
        &&& forall|i: int| 0 <= i < self.nodes@.len() ==> (#[trigger] self.nodes@[i]).wf()
        &&& forall|a: int, k: Seq<Token>, c: int| #[trigger]
            self.entry_to(a, k, c) && self.under(from, a) ==> c < self.nodes@.len() && (
            self.nodes@[c].parent == Some(a as usize) ==> self.nodes@[c].key@.len() > 0)
    }

    /// What a check of the whole tree relies on: also that the counts can be kept.
    pub open spec fn checkable(&self) -> bool {
        &&& self.walkable(ROOT as int)
        &&& self.reached_evictable() <= usize::MAX
        &&& self.reached_protected() <= usize::MAX
    }
}

/// The nodes with the given ids.
pub open spec fn ids(visited: Set<NodeId>) -> Set<int> {
    Set::new(|i: int| 0 <= i <= usize::MAX && visited.contains(i as usize))
}

/// Whether the parent of each node of `visited` but the root is in `visited`.
pub open spec fn rooted(t: RadixTree, visited: Set<NodeId>) -> bool {
    forall|v: NodeId| #[trigger]
        visited.contains(v) && v != ROOT ==> v < t.nodes@.len() && t.nodes@[v as int].parent is Some
            && visited.contains(t.nodes@[v as int].parent->0)
}

/// Whether a check comes to `node` as it does from the root on: for the first time, by way of its
/// parent, like all nodes visited before.
pub open spec fn fresh(t: RadixTree, visited: Set<NodeId>, node: NodeId) -> bool {
    &&& t.nodes@[0].parent is None
    &&& rooted(t, visited)
    &&& !visited.contains(node)
    &&& node != ROOT ==> t.nodes@[node as int].parent is Some && visited.contains(
        t.nodes@[node as int].parent->0,
    )
}

/// A node is under itself.
proof fn lemma_under_self(t: RadixTree, x: int)
    ensures
        t.under(x, x),
{
    let way = seq![x];
    assert(t.is_way(x, way) && way.last() == x);
}

/// What is listed under a node under `from` is under `from`.
proof fn lemma_under_step(t: RadixTree, from: int, a: int, k: Seq<Token>, c: int)
    requires
        t.under(from, a),
        t.entry_to(a, k, c),
    ensures
        t.under(from, c),
{
    let way = choose|way: Seq<int>| #[trigger] t.is_way(from, way) && way.last() == a;
    let longer = way.push(c);
    assert forall|j: int| 0 < j < longer.len() implies t.leads_to(
        longer[j - 1],
        #[trigger] longer[j],
    ) by {
        if j < way.len() {
            assert(t.leads_to(way[j - 1], way[j]));
        } else {
            assert(t.entry_to(longer[j - 1], k, longer[j]));
        }
    }
    assert(t.is_way(from, longer) && longer.last() == c);
}

/// A set of nodes that is closed under entries has all that is under its nodes.
proof fn lemma_closed(t: RadixTree, s: Set<int>, from: int, way: Seq<int>)
    requires
        t.is_way(from, way),
        s.contains(from),
        forall|w: int, k: Seq<Token>, c: int|
            s.contains(w) && #[trigger] t.entry_to(w, k, c) ==> s.contains(c),
    ensures
        s.contains(way.last()),
    decreases way.len(),
{
    if way.len() > 1 {
        let shorter = way.drop_last();
        assert forall|j: int| 0 < j < shorter.len() implies t.leads_to(
            shorter[j - 1],
            #[trigger] shorter[j],
        ) by {
            assert(t.leads_to(way[j - 1], way[j]));
        }
        lemma_closed(t, s, from, shorter);
        let last = way.len() - 1;
        assert(t.leads_to(way[last - 1], way[last]));
        let above = way[last - 1];
        let below = way[last];
        let k = choose|k: Seq<Token>| t.entry_to(above, k, below);
        assert(t.entry_to(above, k, below));
    }
}

/// What is under a node under `from` is under `from`.
proof fn lemma_under_trans(t: RadixTree, from: int, a: int, w: int)
    requires
        t.under(from, a),
        t.under(a, w),
    ensures
        t.under(from, w),
{
    let s = t.below(from);
    assert forall|u: int, k: Seq<Token>, c: int|
        s.contains(u) && #[trigger] t.entry_to(u, k, c) implies s.contains(c) by {
        lemma_under_step(t, from, u, k, c);
    }
    let way = choose|way: Seq<int>| #[trigger] t.is_way(a, way) && way.last() == w;
    lemma_closed(t, s, a, way);
}

/// The last step of the way to a node under `from`.
proof fn lemma_last_step(t: RadixTree, from: int, w: int) -> (r: (int, Seq<Token>))
    requires
        t.under(from, w),
        w != from,
    ensures
        t.under(from, r.0),
        t.entry_to(r.0, r.1, w),
{
    let way = choose|way: Seq<int>| #[trigger] t.is_way(from, way) && way.last() == w;
    let shorter = way.drop_last();
    assert forall|j: int| 0 < j < shorter.len() implies t.leads_to(
        shorter[j - 1],
        #[trigger] shorter[j],
    ) by {
        assert(t.leads_to(way[j - 1], way[j]));
    }
    assert(way.len() > 1);
    assert(t.is_way(from, shorter));
    let above = shorter.last();
    let last = way.len() - 1;
    assert(t.leads_to(way[last - 1], way[last]));
    let k = choose|k: Seq<Token>| t.entry_to(above, k, w);
    assert(t.entry_to(above, k, w));
    (above, k)
}

/// Where all nodes under `from` are in order, each but `from` has its parent among them, is listed
/// there, and is a node.
proof fn lemma_under_parent(t: RadixTree, from: int, w: int)
    requires
        t.walkable(from),
        t.all_in_order(from),
        t.under(from, w),
    ensures
        0 <= w < t.nodes@.len(),
        w != from ==> t.nodes@[w].parent is Some && t.under(from, t.nodes@[w].parent->0 as int),
{
    if w != from {
        let (a, k) = lemma_last_step(t, from, w);
        assert(a < t.nodes.len() <= usize::MAX);
        assert(t.in_order(a));
        assert(t.entry_in_order(a, k));
    }
}

/// What is wrong under a node under `from` is wrong under `from`.
proof fn lemma_faulty_above(t: RadixTree, from: int, a: int, e: IntegrityError)
    requires
        t.under(from, a),
        t.faulty(a, e),
    ensures
        t.faulty(from, e),
{
    match e {
        IntegrityError::Dead(n) => {
            lemma_under_trans(t, from, a, n as int);
        },
        IntegrityError::Length(n) => {
            lemma_under_trans(t, from, a, n as int);
        },
        IntegrityError::Alignment(n) => {
            lemma_under_trans(t, from, a, n as int);
        },
        IntegrityError::Parent(n) => {
            let (b, k) = choose|b: int, k: Seq<Token>|
                t.under(a, b) && #[trigger] t.entry_to(b, k, n as int)
                    && t.nodes@[n as int].parent != Some(b as usize);
            lemma_under_trans(t, from, a, b);
            assert(t.entry_to(b, k, n as int));
        },
        IntegrityError::ChildKey(n) => {
            let (b, k) = choose|b: int, k: Seq<Token>|
                t.under(a, b) && #[trigger] t.entry_to(b, k, n as int) && t.first_page(
                    t.nodes@[n as int].key@,
                ) != k;
            lemma_under_trans(t, from, a, b);
            assert(t.entry_to(b, k, n as int));
        },
        _ => {},
    }
}

/// Where something is wrong, not all is in order.
proof fn lemma_faulty(t: RadixTree, from: int, e: IntegrityError)
    requires
        t.faulty(from, e),
    ensures
        !t.all_in_order(from),
{
    if t.all_in_order(from) {
        match e {
            IntegrityError::Dead(n) => {
                assert(t.in_order(n as int));
            },
            IntegrityError::Length(n) => {
                assert(t.in_order(n as int));
            },
            IntegrityError::Alignment(n) => {
                assert(t.in_order(n as int));
            },
            IntegrityError::Parent(n) => {
                let (a, k) = choose|a: int, k: Seq<Token>|
                    t.under(from, a) && #[trigger] t.entry_to(a, k, n as int)
                        && t.nodes@[n as int].parent != Some(a as usize);
                assert(t.in_order(a));
                assert(t.entry_in_order(a, k));
            },
            IntegrityError::ChildKey(n) => {
                let (a, k) = choose|a: int, k: Seq<Token>|
                    t.under(from, a) && #[trigger] t.entry_to(a, k, n as int) && t.first_page(
                        t.nodes@[n as int].key@,
                    ) != k;
                assert(t.in_order(a));
                assert(t.entry_in_order(a, k));
            },
            _ => {},
        }
    }
}

/// The tokens of two sets of nodes that have none in common add up, and a part of a set has no
/// more than the whole.
proof fn lemma_counts(t: RadixTree, a: Set<int>, b: Set<int>, all: Set<int>)
    requires
        a.disjoint(b),
        a.subset_of(all),
        b.subset_of(all),
    ensures
        t.evictable_in(a.union(b)) == t.evictable_in(a) + t.evictable_in(b),
        t.protected_in(a.union(b)) == t.protected_in(a) + t.protected_in(b),
        t.evictable_in(a) + t.evictable_in(b) <= t.evictable_in(all),
        t.protected_in(a) + t.protected_in(b) <= t.protected_in(all),
{
    let n = t.nodes@.len();
    let e = |s: Set<int>|
        |i: int|
            if s.contains(i) {
                t.raw_evictable(i)
            } else {
                0
            };
    let p = |s: Set<int>|
        |i: int|
            if s.contains(i) {
                t.raw_protected(i)
            } else {
                0
            };
    let u = a.union(b);
    lemma_sum_add(e(a), e(b), e(u), n);
    lemma_sum_add(p(a), p(b), p(u), n);
    lemma_sum_le(e(u), e(all), n);
    lemma_sum_le(p(u), p(all), n);
}

/// The tokens of one node.
proof fn lemma_count_one(t: RadixTree, x: int)
    requires
        0 <= x < t.nodes@.len(),
    ensures
        t.evictable_in(set![x]) == t.raw_evictable(x),
        t.protected_in(set![x]) == t.raw_protected(x),
        t.evictable_in(Set::empty()) == 0,
        t.protected_in(Set::empty()) == 0,
{
    let n = t.nodes@.len();
    let none = Set::<int>::empty();
    let one = set![x];
    let e0 = |i: int|
        if none.contains(i) {
            t.raw_evictable(i)
        } else {
            0
        };
    let e1 = |i: int|
        if one.contains(i) {
            t.raw_evictable(i)
        } else {
            0
        };
    let p0 = |i: int|
        if none.contains(i) {
            t.raw_protected(i)
        } else {
            0
        };
    let p1 = |i: int|
        if one.contains(i) {
            t.raw_protected(i)
        } else {
            0
        };
    lemma_sum_zero(e0, n);
    lemma_sum_zero(p0, n);
    lemma_sum_change(e0, e1, n, x);
    lemma_sum_change(p0, p1, n, x);
}

/// How many nodes were not visited yet.
spec fn unvisited(t: RadixTree, visited: Set<NodeId>) -> int {
    sum_below(
        |i: int|
            if ids(visited).contains(i) {
                0
            } else {
                1
            },
        t.nodes@.len(),
    )
}

/// A visit more leaves one node less to visit, and others leave no more.
proof fn lemma_unvisited(t: RadixTree, was: Set<NodeId>, now: Set<NodeId>, x: NodeId)
    requires
        x < t.nodes@.len(),
        !was.contains(x),
        was.insert(x).subset_of(now),
    ensures
        0 <= unvisited(t, now) < unvisited(t, was),
{
    let n = t.nodes@.len();
    let f = |s: Set<NodeId>|
        |i: int|
            if ids(s).contains(i) {
                0int
            } else {
                1
            };
    let next = was.insert(x);
    lemma_sum_change(f(was), f(next), n, x as int);
    assert forall|i: int| 0 <= i < n implies #[trigger] f(now)(i) <= f(next)(i) by {
        if ids(next).contains(i) {
            assert(now.contains(i as usize));
        }
    }
    lemma_sum_le(f(now), f(next), n);
    lemma_sum_nonneg(f(now), n);
}

/// How far a check of node `x` has come: besides those in `v0`, it has visited the nodes `done`,
/// which are under `x`. Those but `x` are in order, and so is all that they list.
spec fn partly(
    t: RadixTree,
    x: int,
    v0: Set<NodeId>,
    visited: Set<NodeId>,
    done: Set<int>,
) -> bool {
    &&& forall|w: NodeId| #[trigger]
        visited.contains(w) <==> (v0.contains(w) || done.contains(w as int))
    &&& done.contains(x)
    &&& forall|w: int| #[trigger]
        done.contains(w) ==> 0 <= w < t.nodes@.len() && t.under(x, w) && !ids(v0).contains(w)
    &&& forall|w: int| #[trigger] done.contains(w) && w != x ==> t.in_order(w)
    &&& forall|w: int, k: Seq<Token>, c: int|
        done.contains(w) && w != x && #[trigger] t.entry_to(w, k, c) ==> done.contains(c)
}

/// Whether the children of node `x` before entry `e` are in `done`, and belong there.
spec fn listed_done(t: RadixTree, x: int, e: int, done: Set<int>) -> bool {
    let map = t.nodes@[x].children;
    forall|g: int|
        0 <= g < e ==> {
            let d = #[trigger] map.node_at(g);
            done.contains(d as int) && t.entry_in_order(x, map.key_at(g))
        }
}

/// What the check of a child takes it to: `visited` and what is under the child.
spec fn joined(t: RadixTree, c: int, was: Set<NodeId>, now: Set<NodeId>) -> bool {
    &&& forall|w: NodeId| #[trigger]
        now.contains(w) <==> (was.contains(w) || t.under(c, w as int))
    &&& t.below(c).disjoint(ids(was))
    &&& t.all_in_order(c)
}

/// What a check of node `x` can still come to has no node that it has visited.
proof fn lemma_ahead(t: RadixTree, x: int, c: int, v0: Set<NodeId>, was: Set<NodeId>, done: Set<int>)
    requires
        t.under(x, c),
        partly(t, x, v0, was, done),
    ensures
        ({
            let room = t.below(x).difference(ids(v0));
            let ahead = t.below(c).difference(ids(was));
            &&& done.disjoint(ahead)
            &&& done.subset_of(room)
            &&& ahead.subset_of(room)
        }),
{
    let room = t.below(x).difference(ids(v0));
    let ahead = t.below(c).difference(ids(was));
    assert forall|w: int| #[trigger] ahead.contains(w) implies room.contains(w) && !done.contains(
        w,
    ) by {
        lemma_under_trans(t, x, c, w);
        if ids(v0).contains(w) {
            assert(was.contains(w as usize));
        }
        if done.contains(w) {
            assert(w < t.nodes.len() <= usize::MAX);
            assert(was.contains(w as usize));
        }
    }
}

/// With a child checked, the check has come further.
proof fn lemma_partly_more(
    t: RadixTree,
    x: int,
    c: int,
    v0: Set<NodeId>,
    was: Set<NodeId>,
    now: Set<NodeId>,
    done: Set<int>,
)
    requires
        t.walkable(c),
        t.under(x, c),
        partly(t, x, v0, was, done),
        joined(t, c, was, now),
    ensures
        partly(t, x, v0, now, done.union(t.below(c))),
        t.below(c).difference(ids(was)) == t.below(c),
{
    let all = done.union(t.below(c));
    assert(t.below(c).difference(ids(was)) =~= t.below(c));
    lemma_ahead(t, x, c, v0, was, done);
    assert forall|w: int| #[trigger] all.contains(w) && !done.contains(w) implies {
        &&& 0 <= w < t.nodes@.len()
        &&& t.under(x, w)
        &&& !ids(v0).contains(w)
        &&& t.in_order(w)
    } by {
        assert(t.under(c, w));
        lemma_under_parent(t, c, w);
        lemma_under_trans(t, x, c, w);
        assert(t.below(c).difference(ids(was)).contains(w));
    }
    assert forall|w: int, k: Seq<Token>, d: int|
        all.contains(w) && w != x && #[trigger] t.entry_to(w, k, d) implies all.contains(d) by {
        if !done.contains(w) {
            lemma_under_step(t, c, w, k, d);
        }
    }
}

/// Whether of the children of node `x` from entry `e` on none that belongs there was visited.
spec fn rest_unvisited(t: RadixTree, x: int, e: int, visited: Set<NodeId>) -> bool {
    let map = t.nodes@[x].children;
    forall|g: int|
        e <= g < map.count() ==> {
            let d = #[trigger] map.node_at(g);
            d < t.nodes@.len() && t.nodes@[d as int].parent == Some(x as usize) && t.first_page(
                t.nodes@[d as int].key@,
            ) == map.key_at(g) ==> !visited.contains(d)
        }
}

/// The check of a child comes to none of the other children.
proof fn lemma_fresh_more(t: RadixTree, x: int, e: int, was: Set<NodeId>, now: Set<NodeId>)
    requires
        0 <= x < t.nodes@.len(),
        t.nodes@[x].children.wf(),
        0 <= e < t.nodes@[x].children.count(),
        t.walkable(t.nodes@[x].children.node_at(e) as int),
        t.first_page(t.nodes@[t.nodes@[x].children.node_at(e) as int].key@)
            == t.nodes@[x].children.key_at(e),
        joined(t, t.nodes@[x].children.node_at(e) as int, was, now),
        rooted(t, was),
        was.contains(x as usize),
        t.nodes@[t.nodes@[x].children.node_at(e) as int].parent == Some(x as usize),
        rest_unvisited(t, x, e, was),
    ensures
        rooted(t, now),
        rest_unvisited(t, x, e + 1, now),
{
    let map = t.nodes@[x].children;
    let c = map.node_at(e) as int;
    assert(x < t.nodes.len() <= usize::MAX);
    assert forall|v: NodeId| #[trigger] now.contains(v) && v != ROOT implies v < t.nodes@.len()
        && t.nodes@[v as int].parent is Some && now.contains(t.nodes@[v as int].parent->0) by {
        if !was.contains(v) {
            lemma_under_parent(t, c, v as int);
        } else {
            assert(was.contains(t.nodes@[v as int].parent->0));
        }
    }
    assert forall|g: int| e + 1 <= g < map.count() implies {
        let d = #[trigger] map.node_at(g);
        d < t.nodes@.len() && t.nodes@[d as int].parent == Some(x as usize) && t.first_page(
            t.nodes@[d as int].key@,
        ) == map.key_at(g) ==> !now.contains(d)
    } by {
        let d = map.node_at(g) as int;
        if t.under(c, d) && t.nodes@[d].parent == Some(x as usize) {
            if d == c {
                if t.first_page(t.nodes@[d].key@) == map.key_at(g) {
                    map.lemma_distinct(e, g);
                }
            } else {
                lemma_under_parent(t, c, d);
                assert(t.below(c).contains(x));
                assert(ids(was).contains(x));
            }
        }
    }
}

impl RadixTree {
    /// Checks `node` and all that runs of entries lead to from it, and adds their tokens to the
    /// counts. No node may be come to twice; none is, before something else is wrong, if `node`
    /// was come to by way of its parent like all before: each node names its one parent, and is
    /// listed there under its one first page.
    #[verifier::rlimit(30)]
    fn check_node(
        &self,
        node: NodeId,
        visited: &mut HashSet<NodeId>,
        evictable: &mut usize,
        protected: &mut usize,
    ) -> (r: Result<(), IntegrityError>)
        requires
            self.walkable(node as int),
            *old(evictable) + self.evictable_in(
                self.below(node as int).difference(ids(old(visited)@)),
            ) <= usize::MAX,
            *old(protected) + self.protected_in(
                self.below(node as int).difference(ids(old(visited)@)),
            ) <= usize::MAX,
        ensures
            old(visited)@.contains(node) ==> r == Err::<(), IntegrityError>(
                IntegrityError::Duplicate(node),
            ),
            r is Ok ==> {
                &&& forall|w: NodeId| #[trigger]
                    final(visited)@.contains(w) <==> (old(visited)@.contains(w) || self.under(
                        node as int,
                        w as int,
                    ))
                &&& self.below(node as int).disjoint(ids(old(visited)@))
                &&& self.all_in_order(node as int)
                &&& *final(evictable) == *old(evictable) + self.evictable_in(self.below(node as int))
                &&& *final(protected) == *old(protected) + self.protected_in(self.below(node as int))
            },
            r matches Err(e) ==> match e {
                IntegrityError::Duplicate(w) => self.under(node as int, w as int),
                _ => self.faulty(node as int, e),
            },
            fresh(*self, old(visited)@, node) ==> {
                &&& r matches Err(e) ==> !(e is Duplicate)
                &&& r is Ok <==> self.all_in_order(node as int)
            },
        decreases unvisited(*self, old(visited)@),
    {
        let ghost x = node as int;
        let ghost v0 = visited@;
        let ghost room = self.below(x).difference(ids(v0));
        let ghost come_fresh = fresh(*self, v0, node);
        proof {
            lemma_under_self(*self, x);
            assert(self.nodes@[x].wf());
        }
        if !visited.insert(node) {
            return Err(IntegrityError::Duplicate(node));
        }
        if !self.nodes[node].alive {
            proof {
                lemma_faulty(*self, x, IntegrityError::Dead(node));
            }
            return Err(IntegrityError::Dead(node));
        }
        let ghost mut done = set![x];
        proof {
            assert(done.disjoint(Set::<int>::empty()));
            lemma_count_one(*self, x);
            lemma_counts(*self, done, Set::empty(), room);
        }
        if node != ROOT {
            let n = &self.nodes[node];
            if n.key.is_empty() || n.key.len() != n.value.len() {
                proof {
                    lemma_faulty(*self, x, IntegrityError::Length(node));
                }
                return Err(IntegrityError::Length(node));
            }
            if n.key.len() % self.page_size != 0 {
                proof {
                    lemma_faulty(*self, x, IntegrityError::Alignment(node));
                }
                return Err(IntegrityError::Alignment(node));
            }
            if n.ref_count == 0 {
                *evictable = *evictable + n.len();
            } else {
                *protected = *protected + n.len();
            }
        }
        let count = self.nodes[node].children.len();
        let ghost map = self.nodes@[x].children;
        let mut e: usize = 0;
        proof {
            assert(partly(*self, x, v0, visited@, done));
            if come_fresh {
                assert(rooted(*self, visited@));
                assert(rest_unvisited(*self, x, 0, visited@));
            }
        }
        while e < count
            invariant
                self.walkable(x),
                x == node,
                v0 == old(visited)@,
                room == self.below(x).difference(ids(v0)),
                *old(evictable) + self.evictable_in(room) <= usize::MAX,
                *old(protected) + self.protected_in(room) <= usize::MAX,
                come_fresh == fresh(*self, v0, node),
                self.under(x, x),
                map == self.nodes@[x].children,
                map.wf(),
                count == map.count(),
                e <= count,
                !v0.contains(node),
                visited@.contains(node),
                partly(*self, x, v0, visited@, done),
                listed_done(*self, x, e as int, done),
                come_fresh ==> rooted(*self, visited@),
                come_fresh ==> rest_unvisited(*self, x, e as int, visited@),
                *evictable == *old(evictable) + self.evictable_in(done),
                *protected == *old(protected) + self.protected_in(done),
                self.nodes@[x].alive,
                x != ROOT ==> {
                    &&& self.nodes@[x].key@.len() > 0
                    &&& self.nodes@[x].key@.len() == self.nodes@[x].value@.len()
                    &&& self.nodes@[x].key@.len() % self.page_size as nat == 0
                },
            decreases count - e,
        {
            let (key, child) = self.nodes[node].children.entry(e);
            let ghost c = child as int;
            proof {
                map.lemma_entry(e as int);
                assert(self.entry_to(x, key@, c));
                lemma_under_step(*self, x, x, key@, c);
            }
            let belongs = match self.nodes[child].parent {
                Some(p) => p == node,
                None => false,
            };
            if !belongs {
                proof {
                    assert(self.faulty(x, IntegrityError::Parent(child)));
                    lemma_faulty(*self, x, IntegrityError::Parent(child));
                }
                return Err(IntegrityError::Parent(child));
            }
            proof {
                assert(self.nodes@[c].wf());
            }
            let expected_key = self.child_key_slice(self.nodes[child].key.as_slice());
            if !same_tokens(key.as_slice(), expected_key) {
                proof {
                    assert(self.faulty(x, IntegrityError::ChildKey(child)));
                    lemma_faulty(*self, x, IntegrityError::ChildKey(child));
                }
                return Err(IntegrityError::ChildKey(child));
            }
            let ghost before = visited@;
            proof {
                assert forall|w: int| #[trigger] self.under(c, w) implies self.under(x, w) by {
                    lemma_under_trans(*self, x, c, w);
                }
                assert(self.walkable(c));
                lemma_ahead(*self, x, c, v0, before, done);
                lemma_counts(*self, done, self.below(c).difference(ids(before)), room);
                assert(v0.insert(node).subset_of(before));
                lemma_unvisited(*self, v0, before, node);
                assert(come_fresh ==> fresh(*self, before, child));
            }
            match self.check_node(child, visited, evictable, protected) {
                Ok(_) => {
                    proof {
                        assert(joined(*self, c, before, visited@));
                        lemma_partly_more(*self, x, c, v0, before, visited@, done);
                        lemma_under_self(*self, c);
                        assert(self.entry_in_order(x, key@));
                        if come_fresh {
                            lemma_fresh_more(*self, x, e as int, before, visited@);
                        }
                        let was = done;
                        done = was.union(self.below(c));
                        assert(self.below(c).contains(c));
                        assert(listed_done(*self, x, e + 1, done));
                    }
                },
                Err(err) => {
                    proof {
                        match err {
                            IntegrityError::Duplicate(w) => {
                                lemma_under_trans(*self, x, c, w as int);
                            },
                            _ => {
                                lemma_faulty_above(*self, x, c, err);
                                lemma_faulty(*self, x, err);
                            },
                        }
                    }
                    return Err(err);
                },
            }
            e = e + 1;
        }
        proof {
            assert forall|k: Seq<Token>| map@.dom().contains(k) implies #[trigger] self.entry_in_order(
                x,
                k,
            ) by {
                let g = map.lemma_find(k);
                assert(done.contains(map.node_at(g) as int));
            }
            assert(self.in_order(x));
            assert forall|w: int, k: Seq<Token>, c: int|
                done.contains(w) && #[trigger] self.entry_to(w, k, c) implies done.contains(c) by {
                if w == x {
                    let g = map.lemma_find(k);
                    map.lemma_entry(g);
                    assert(done.contains(map.node_at(g) as int));
                }
            }
            assert forall|w: int| #[trigger] self.below(x).contains(w) == done.contains(w) by {
                if self.under(x, w) {
                    let way = choose|way: Seq<int>| #[trigger] self.is_way(x, way) && way.last() == w;
                    lemma_closed(*self, done, x, way);
                }
            }
            assert(done =~= self.below(x));
            assert forall|w: int| #[trigger] self.under(x, w) implies self.in_order(w) by {
                assert(self.below(x).contains(w));
            }
            assert forall|w: NodeId| #[trigger]
                visited@.contains(w) <==> (v0.contains(w) || self.under(x, w as int)) by {
                assert(self.below(x).contains(w as int) == done.contains(w as int));
            }
            assert(self.below(x).disjoint(ids(v0))) by {
                assert forall|w: int| !(#[trigger] self.below(x).contains(w) && ids(v0).contains(w)) by {
                    assert(self.below(x).contains(w) == done.contains(w));
                }
            }
        }
        Ok(())
    }

    /// Checks the whole tree.
    pub fn check_integrity(&self) -> (r: Result<(), IntegrityError>)
        requires
            self.checkable(),
        ensures
            r is Ok <==> self.integral(),
            r matches Err(e) ==> self.suffers(e),
    {
        let root_has_parent = self.nodes[ROOT].parent.is_some();
        if root_has_parent || self.nodes[ROOT].ref_count != 1 {
            return Err(IntegrityError::Root);
        }
        let mut visited: HashSet<NodeId> = HashSet::new();
        let mut evictable: usize = 0;
        let mut protected: usize = 0;
        proof {
            assert(self.below(ROOT as int).difference(ids(visited@)) =~= self.below(ROOT as int));
            assert(fresh(*self, visited@, ROOT));
        }
        match self.check_node(ROOT, &mut visited, &mut evictable, &mut protected) {
            Ok(_) => {},
            Err(e) => {
                return Err(e);
            },
        }
        if evictable != self.evictable_size || protected != self.protected_size {
            return Err(
                IntegrityError::Sizes {
                    evictable,
                    protected,
                    stored_evictable: self.evictable_size,
                    stored_protected: self.protected_size,
                },
            );
        }
        Ok(())
    }
}

/// What can be reached is in the tree.
proof fn lemma_reached_live(t: RadixTree, way: Seq<int>)
    requires
        t.inv(),
        t.is_way(ROOT as int, way),
    ensures
        t@.live(way.last()),
    decreases way.len(),
{
    if way.len() > 1 {
        let shorter = way.drop_last();
        assert forall|j: int| 0 < j < shorter.len() implies t.leads_to(
            shorter[j - 1],
            #[trigger] shorter[j],
        ) by {
            assert(t.leads_to(way[j - 1], way[j]));
        }
        let last = way.len() - 1;
        let above = way[last - 1];
        let below = way[last];
        assert(t.leads_to(above, below));
        let k = choose|k: Seq<Token>| t.entry_to(above, k, below);
        assert(t.entry_to(above, k, below));
        assert(t.node_inv(above));
        assert(t.child_ok(above, k));
    }
}

/// What is in the tree can be reached.
proof fn lemma_live_reached(t: RadixTree, i: int)
    requires
        t.inv(),
        t@.live(i),
    ensures
        t.reaches(i),
    decreases t@.prefix(i).len(),
{
    if i == ROOT {
        lemma_under_self(t, ROOT as int);
    } else {
        assert(t@.node_ok(i));
        lemma_live_reached(t, t@.parent(i));
        assert(t.listed(i));
        lemma_under_step(t, ROOT as int, t@.parent(i), t@.page(i), i);
    }
}

/// A tree that is kept as it should be can be checked, and passes.
pub proof fn lemma_inv_integral(t: RadixTree)
    requires
        t.inv(),
    ensures
        t.checkable(),
        t.integral(),
{
    let m = t@;
    assert forall|i: int| #[trigger] t.reaches(i) == m.live(i) by {
        if t.reaches(i) {
            let way = choose|way: Seq<int>| #[trigger] t.is_way(ROOT as int, way) && way.last() == i;
            lemma_reached_live(t, way);
        }
        if m.live(i) {
            lemma_live_reached(t, i);
        }
    }
    assert forall|i: int| 0 <= i < t.nodes@.len() implies (#[trigger] t.nodes@[i]).wf() by {
        assert(t.node_inv(i));
    }
    assert forall|a: int, k: Seq<Token>, c: int| #[trigger] t.entry_to(a, k, c) implies c
        < t.nodes@.len() && t.nodes@[c].key@.len() > 0 by {
        assert(t.node_inv(a));
        assert(t.child_ok(a, k));
        assert(t.node_inv(c));
        assert(m.node_ok(c));
    }
    assert forall|i: int| i != ROOT && #[trigger] m.live(i) implies t.nodes@[i].key@.len()
        == m.key_len(i) by {
        assert(t.node_inv(i));
        assert(m.node_ok(i));
    }
    let all = t.below(ROOT as int);
    assert forall|i: int| #[trigger] all.contains(i) == m.live(i) by {
        assert(t.reaches(i) == m.live(i));
    }
    lemma_sum_same(
        |i: int|
            if all.contains(i) {
                t.raw_evictable(i)
            } else {
                0
            },
        |i: int| m.evictable_count(i),
        t.nodes@.len(),
    );
    lemma_sum_same(
        |i: int|
            if all.contains(i) {
                t.raw_protected(i)
            } else {
                0
            },
        |i: int| m.protected_count(i),
        t.nodes@.len(),
    );
    assert forall|i: int| #[trigger] t.under(ROOT as int, i) implies t.in_order(i) by {
        assert(t.reaches(i));
        assert(m.live(i));
        assert(t.node_inv(i));
        if i != ROOT {
            assert(m.node_ok(i));
            lemma_page_fits(m, i);
            assert(m.value(i).len() == m.key(i).len());
        }
        assert forall|k: Seq<Token>| t.nodes@[i].children@.dom().contains(k) implies
            #[trigger] t.entry_in_order(i, k) by {
            assert(t.child_ok(i, k));
            let c = t.nodes@[i].children@[k] as int;
            assert(t.node_inv(c));
            assert(m.node_ok(c));
            lemma_page_fits(m, c);
            assert(m.key(c).take(m.page_size as int) =~= m.page(c));
        }
    }
}

/// Each message says what is wrong, and names the node in decimal, or the sizes.
pub proof fn law_messages(n: NodeId, a: usize, b: usize, c: usize, d: usize)
    ensures
        IntegrityError::Root.text() == "root must have no parent and ref_count=1"@,
        IntegrityError::Duplicate(n).text() == "cycle or duplicate child reference at node "@
            + decimal(n as nat),
        IntegrityError::Dead(n).text() == "reachable node "@ + decimal(n as nat)
            + " is marked dead"@,
        IntegrityError::Length(n).text() == "invalid key/value length at node "@ + decimal(
            n as nat,
        ),
        IntegrityError::Alignment(n).text() == "node "@ + decimal(n as nat)
            + " length is not page aligned"@,
        IntegrityError::Parent(n).text() == "child "@ + decimal(n as nat) + " parent mismatch"@,
        IntegrityError::ChildKey(n).text() == "child map key mismatch for child "@ + decimal(
            n as nat,
        ),
        (IntegrityError::Sizes {
            evictable: a,
            protected: b,
            stored_evictable: c,
            stored_protected: d,
        }).text() == "size mismatch: computed evictable/protected=("@ + decimal(a as nat) + ","@
            + decimal(b as nat) + "), stored=("@ + decimal(c as nat) + ","@ + decimal(d as nat)
            + ")"@,
{
}

/// The tokens in nodes that can be reached and are locked, or not, as asked for. The root has none.
pub open spec fn reached_tokens(t: RadixTree, locked: bool) -> int {
    sum_below(
        |j: int|
            if j != 0 && t.reaches(j) && (t.nodes@[j].ref_count > 0) == locked {
                t.nodes@[j].key@.len() as int
            } else {
                0
            },
        t.nodes@.len(),
    )
}

/// The sizes that a check counts are the tokens in the nodes that can be reached.
pub proof fn law_reached_sizes(t: RadixTree)
    ensures
        t.reached_evictable() == reached_tokens(t, false),
        t.reached_protected() == reached_tokens(t, true),
{
    let all = t.below(ROOT as int);
    lemma_sum_same(
        |j: int|
            if all.contains(j) {
                t.raw_evictable(j)
            } else {
                0
            },
        |j: int|
            if j != 0 && t.reaches(j) && (t.nodes@[j].ref_count > 0) == false {
                t.nodes@[j].key@.len() as int
            } else {
                0
            },
        t.nodes@.len(),
    );
    lemma_sum_same(
        |j: int|
            if all.contains(j) {
                t.raw_protected(j)
            } else {
                0
            },
        |j: int|
            if j != 0 && t.reaches(j) && (t.nodes@[j].ref_count > 0) == true {
                t.nodes@[j].key@.len() as int
            } else {
                0
            },
        t.nodes@.len(),
    );
}

/// A check that passes leaves nothing wrong: of the root, of any node that a way along the entries
/// leads to, or of the sizes kept.
pub proof fn law_passing_means(t: RadixTree, way: Seq<int>)
    requires
        t.integral(),
        t.is_way(ROOT as int, way),
    ensures
        ({
            let i = way.last();
            let n = t.nodes@[i];
            &&& t.nodes@[0].parent is None
            &&& t.nodes@[0].ref_count == 1
            &&& n.alive
            &&& i != 0 ==> n.key@.len() > 0 && n.value@.len() == n.key@.len()
            &&& i != 0 ==> n.key@.len() % t.page_size as nat == 0
            &&& forall|k: Seq<Token>| #[trigger]
                n.children@.dom().contains(k) ==> {
                    let c = t.nodes@[n.children@[k] as int];
                    &&& c.parent == Some(i as usize)
                    &&& c.key@.len() >= t.page_size ==> c.key@.take(t.page_size as int) == k
                    &&& c.key@.len() < t.page_size ==> c.key@ == k
                }
        }),
        t.evictable_size == reached_tokens(t, false),
        t.protected_size == reached_tokens(t, true),
{
    let i = way.last();
    assert(t.under(ROOT as int, i));
    assert(t.in_order(i));
    assert forall|k: Seq<Token>| #[trigger] t.nodes@[i].children@.dom().contains(k) implies {
        let c = t.nodes@[t.nodes@[i].children@[k] as int];
        &&& c.parent == Some(i as usize)
        &&& c.key@.len() >= t.page_size ==> c.key@.take(t.page_size as int) == k
        &&& c.key@.len() < t.page_size ==> c.key@ == k
    } by {
        assert(t.entry_in_order(i, k));
    }
    law_reached_sizes(t);
}

/// What a check reports is so: of a node that a way along the entries leads to, or of the sizes.
pub proof fn law_reports_are_true(t: RadixTree, e: IntegrityError)
    requires
        t.suffers(e),
    ensures
        match e {
            IntegrityError::Root => t.nodes@[0].parent is Some || t.nodes@[0].ref_count != 1,
            IntegrityError::Duplicate(_) => false,
            IntegrityError::Dead(n) => t.reaches(n as int) && !t.nodes@[n as int].alive,
            IntegrityError::Length(n) => {
                let x = t.nodes@[n as int];
                n != 0 && t.reaches(n as int) && (x.key@.len() == 0 || x.key@.len()
                    != x.value@.len())
            },
            IntegrityError::Alignment(n) => n != 0 && t.reaches(n as int)
                && t.nodes@[n as int].key@.len() % t.page_size as nat != 0,
            IntegrityError::Parent(n) => exists|a: int| #[trigger]
                t.leads_to(a, n as int) && t.reaches(a) && t.nodes@[n as int].parent != Some(
                    a as usize,
                ),
            IntegrityError::ChildKey(n) => exists|a: int, k: Seq<Token>| #[trigger]
                t.entry_to(a, k, n as int) && t.reaches(a) && {
                    let key = t.nodes@[n as int].key@;
                    k != if key.len() < t.page_size {
                        key
                    } else {
                        key.take(t.page_size as int)
                    }
                },
            IntegrityError::Sizes { evictable, protected, stored_evictable, stored_protected } => {
                &&& evictable == reached_tokens(t, false)
                &&& protected == reached_tokens(t, true)
                &&& stored_evictable == t.evictable_size
                &&& stored_protected == t.protected_size
                &&& (evictable, protected) != (stored_evictable, stored_protected)
            },
        },
{
    law_reached_sizes(t);
    if let IntegrityError::Parent(n) = e {
        let (a, k) = choose|a: int, k: Seq<Token>|
            t.under(ROOT as int, a) && #[trigger] t.entry_to(a, k, n as int)
                && t.nodes@[n as int].parent != Some(a as usize);
        assert(t.leads_to(a, n as int));
    }
}

} // verus!
