//! The nodes under a node, by the first page of their tokens.

use crate::lex::{lemma_less_irreflexive, lemma_less_trans, less, side_of, Side};
use crate::model::{NodeId, Token};
use vstd::prelude::*;
use vstd::slice::slice_to_vec;

verus! {

/// A node and the first page of its tokens.
#[derive(Debug)]
pub struct Child {
    pub key: Vec<Token>,
    pub node: NodeId,
}

/// A map from the first page of a node's tokens to the node, sorted by the page.
#[derive(Debug)]
pub struct ChildMap {
    entries: Vec<Child>,
}

impl View for ChildMap {
    type V = Map<Seq<Token>, NodeId>;

    closed spec fn view(&self) -> Map<Seq<Token>, NodeId> {
        Map::new(
            |k: Seq<Token>| exists|j: int| self.holds(j, k),
            |k: Seq<Token>| self.entries@[choose|j: int| self.holds(j, k)].node,
        )
    }
}

impl ChildMap {
    /// Whether entry `j` has the key `k`.
    spec fn holds(&self, j: int, k: Seq<Token>) -> bool {
        0 <= j < self.entries@.len() && self.entries@[j].key@ == k
    }

    /// Whether the entries are sorted, so that no key occurs twice.
    pub closed spec fn wf(&self) -> bool {
        forall|i: int, j: int|
            0 <= i < j < self.entries@.len() ==> #[trigger] less(
                self.entries@[i].key@,
                self.entries@[j].key@,
            )
    }

    /// How many entries there are.
    pub closed spec fn count(&self) -> nat {
        self.entries@.len()
    }

    /// The key of entry `j`.
    pub closed spec fn key_at(&self, j: int) -> Seq<Token> {
        self.entries@[j].key@
    }

    /// The node of entry `j`.
    pub closed spec fn node_at(&self, j: int) -> NodeId {
        self.entries@[j].node
    }

    /// The entries are what the map holds.
    pub proof fn lemma_entry(&self, j: int)
        requires
            self.wf(),
            0 <= j < self.count(),
        ensures
            self@.dom().contains(self.key_at(j)),
            self@[self.key_at(j)] == self.node_at(j),
    {
        let k = self.key_at(j);
        assert(self.holds(j, k));
        let i = choose|i: int| self.holds(i, k);
        assert(self.holds(i, k));
        self.lemma_distinct(i, j);
    }

    /// Every key of the map has an entry.
    pub proof fn lemma_find(&self, k: Seq<Token>) -> (j: int)
        requires
            self.wf(),
            self@.dom().contains(k),
        ensures
            0 <= j < self.count(),
            self.key_at(j) == k,
    {
        choose|j: int| self.holds(j, k)
    }

    /// No two entries have the same key.
    pub proof fn lemma_distinct(&self, i: int, j: int)
        requires
            self.wf(),
            0 <= i < self.count(),
            0 <= j < self.count(),
            self.key_at(i) == self.key_at(j),
        ensures
            i == j,
    {
        lemma_less_irreflexive(self.key_at(i));
        if i < j {
            assert(less(self.entries@[i].key@, self.entries@[j].key@));
        }
        if j < i {
            assert(less(self.entries@[j].key@, self.entries@[i].key@));
        }
    }

    pub fn new() -> (r: Self)
        ensures
            r.wf(),
            r@ == Map::<Seq<Token>, NodeId>::empty(),
            r.count() == 0,
    {
        let r = Self { entries: Vec::new() };
        assert(r@ =~= Map::<Seq<Token>, NodeId>::empty()) by {
            assert forall|k: Seq<Token>| !r@.dom().contains(k) by {
                assert(forall|j: int| !r.holds(j, k));
            }
        }
        r
    }

    pub fn is_empty(&self) -> (r: bool)
        requires
            self.wf(),
        ensures
            r == (self@ == Map::<Seq<Token>, NodeId>::empty()),
    {
        proof {
            if self.entries@.len() == 0 {
                assert forall|k: Seq<Token>| !self@.dom().contains(k) by {
                    assert(forall|j: int| !self.holds(j, k));
                }
                assert(self@ =~= Map::<Seq<Token>, NodeId>::empty());
            } else {
                self.lemma_entry(0);
            }
        }
        self.entries.len() == 0
    }

    pub fn len(&self) -> (r: usize)
        ensures
            r == self.count(),
    {
        self.entries.len()
    }

    /// The entry at position `j`.
    pub fn entry(&self, j: usize) -> (r: (&Vec<Token>, NodeId))
        requires
            self.wf(),
            j < self.count(),
        ensures
            r.0@ == self.key_at(j as int),
            self@.dom().contains(r.0@),
            self@[r.0@] == r.1,
            r.1 == self.node_at(j as int),
    {
        proof {
            self.lemma_entry(j as int);
        }
        (&self.entries[j].key, self.entries[j].node)
    }

    /// The position of the entry with a given key, or the position where it would have to be
    /// put.
    fn position(&self, key: &[Token]) -> (r: Result<usize, usize>)
        requires
            self.wf(),
        ensures
            match r {
                Ok(j) => j < self.count() && self.key_at(j as int) == key@,
                Err(j) => {
                    &&& j <= self.count()
                    &&& forall|i: int| 0 <= i < j ==> #[trigger] less(self.entries@[i].key@, key@)
                    &&& forall|i: int|
                        j <= i < self.count() ==> #[trigger] less(key@, self.entries@[i].key@)
                    &&& !self@.dom().contains(key@)
                },
            },
    {
        let mut low: usize = 0;
        let mut high: usize = self.entries.len();
        while low < high
            invariant
                self.wf(),
                low <= high <= self.entries@.len(),
                forall|i: int| 0 <= i < low ==> #[trigger] less(self.entries@[i].key@, key@),
                forall|i: int|
                    high <= i < self.entries@.len() ==> #[trigger] less(key@, self.entries@[i].key@),
            decreases high - low,
        {
            let middle = low + (high - low) / 2;
            match side_of(self.entries[middle].key.as_slice(), key) {
                Side::Same => {
                    return Ok(middle);
                },
                Side::Before => {
                    proof {
                        let k = self.entries@[middle as int].key@;
                        assert forall|i: int| 0 <= i < middle + 1 implies #[trigger] less(
                            self.entries@[i].key@,
                            key@,
                        ) by {
                            if i < middle {
                                assert(less(self.entries@[i].key@, k));
                                lemma_less_trans(self.entries@[i].key@, k, key@);
                            }
                        }
                    }
                    low = middle + 1;
                },
                Side::After => {
                    proof {
                        let k = self.entries@[middle as int].key@;
                        assert forall|i: int|
                            middle <= i < self.entries@.len() implies #[trigger] less(
                            key@,
                            self.entries@[i].key@,
                        ) by {
                            if i > middle {
                                assert(less(k, self.entries@[i].key@));
                                lemma_less_trans(key@, k, self.entries@[i].key@);
                            }
                        }
                    }
                    high = middle;
                },
            }
        }
        proof {
            if self@.dom().contains(key@) {
                let i = self.lemma_find(key@);
                lemma_less_irreflexive(key@);
                if i < low {
                    assert(less(self.entries@[i].key@, key@));
                } else {
                    assert(less(key@, self.entries@[i].key@));
                }
            }
        }
        Err(low)
    }

    /// The node for a page.
    pub fn get(&self, key: &[Token]) -> (r: Option<NodeId>)
        requires
            self.wf(),
        ensures
            match r {
                Some(n) => self@.dom().contains(key@) && self@[key@] == n,
                None => !self@.dom().contains(key@),
            },
    {
        match self.position(key) {
            Ok(j) => {
                proof {
                    self.lemma_entry(j as int);
                }
                Some(self.entries[j].node)
            },
            Err(_) => None,
        }
    }

    /// Sets the node for a page. Gives the node that was there before.
    pub fn insert(&mut self, key: Vec<Token>, node: NodeId) -> (r: Option<NodeId>)
        requires
            old(self).wf(),
        ensures
            final(self).wf(),
            final(self)@ == old(self)@.insert(key@, node),
            match r {
                Some(n) => old(self)@.dom().contains(key@) && old(self)@[key@] == n,
                None => !old(self)@.dom().contains(key@),
            },
    {
        let ghost was = *self;
        match self.position(key.as_slice()) {
            Ok(j) => {
                proof {
                    self.lemma_entry(j as int);
                }
                let before = self.entries[j].node;
                self.entries[j] = Child { key, node };
                proof {
                    lemma_replaced(was, *self, j as int);
                }
                Some(before)
            },
            Err(j) => {
                self.entries.insert(j, Child { key, node });
                proof {
                    lemma_inserted(was, *self, j as int);
                }
                None
            },
        }
    }

    /// Takes the entry for a page out. Gives the node that was there.
    pub fn remove(&mut self, key: &[Token]) -> (r: Option<NodeId>)
        requires
            old(self).wf(),
        ensures
            final(self).wf(),
            final(self)@ == old(self)@.remove(key@),
            match r {
                Some(n) => old(self)@.dom().contains(key@) && old(self)@[key@] == n,
                None => !old(self)@.dom().contains(key@),
            },
    {
        let ghost was = *self;
        match self.position(key) {
            Ok(j) => {
                proof {
                    self.lemma_entry(j as int);
                }
                let gone = self.entries.remove(j);
                proof {
                    lemma_removed(was, *self, j as int);
                }
                Some(gone.node)
            },
            Err(_) => {
                assert(self@ =~= was@.remove(key@));
                None
            },
        }
    }
}

/// Giving entry `j` another node sets the map at its key.
proof fn lemma_replaced(a: ChildMap, b: ChildMap, j: int)
    requires
        a.wf(),
        0 <= j < a.count(),
        b.count() == a.count(),
        b.key_at(j) == a.key_at(j),
        forall|i: int| 0 <= i < a.count() && i != j ==> #[trigger] b.entries@[i] == a.entries@[i],
    ensures
        b.wf(),
        b@ == a@.insert(b.key_at(j), b.node_at(j)),
{
    assert forall|x: int, y: int| 0 <= x < y < b.entries@.len() implies #[trigger] less(
        b.entries@[x].key@,
        b.entries@[y].key@,
    ) by {
        assert(less(a.entries@[x].key@, a.entries@[y].key@));
    }
    let t = a@.insert(b.key_at(j), b.node_at(j));
    b.lemma_entry(j);
    a.lemma_entry(j);
    assert forall|q: Seq<Token>| #[trigger] b@.dom().contains(q) == t.dom().contains(q) && (
    t.dom().contains(q) ==> b@[q] == t[q]) by {
        if b@.dom().contains(q) {
            let i = b.lemma_find(q);
            b.lemma_entry(i);
            a.lemma_entry(i);
        }
        if a@.dom().contains(q) {
            let i = a.lemma_find(q);
            b.lemma_entry(i);
        }
    }
    assert(b@ =~= t);
}

/// Putting in an entry sets the map at its key.
proof fn lemma_inserted(a: ChildMap, b: ChildMap, j: int)
    requires
        a.wf(),
        0 <= j <= a.count(),
        b.entries@ == a.entries@.insert(j, b.entries@[j]),
        forall|i: int| 0 <= i < j ==> #[trigger] less(a.entries@[i].key@, b.key_at(j)),
        forall|i: int| j <= i < a.count() ==> #[trigger] less(b.key_at(j), a.entries@[i].key@),
    ensures
        b.wf(),
        b@ == a@.insert(b.key_at(j), b.node_at(j)),
{
    // Where each entry of `b` was in `a`.
    let from = |i: int|
        if i < j {
            i
        } else {
            i - 1
        };
    assert(forall|i: int|
        0 <= i < b.entries@.len() && i != j ==> #[trigger] b.entries@[i] == a.entries@[from(i)]);
    assert forall|x: int, y: int| 0 <= x < y < b.entries@.len() implies #[trigger] less(
        b.entries@[x].key@,
        b.entries@[y].key@,
    ) by {
        if x != j && y != j {
            assert(less(a.entries@[from(x)].key@, a.entries@[from(y)].key@));
        } else if x == j {
            assert(less(b.key_at(j), a.entries@[from(y)].key@));
        } else {
            assert(less(a.entries@[from(x)].key@, b.key_at(j)));
        }
    }
    let t = a@.insert(b.key_at(j), b.node_at(j));
    b.lemma_entry(j);
    assert forall|q: Seq<Token>| #[trigger] b@.dom().contains(q) == t.dom().contains(q) && (
    t.dom().contains(q) ==> b@[q] == t[q]) by {
        if b@.dom().contains(q) {
            let i = b.lemma_find(q);
            b.lemma_entry(i);
            if i != j {
                a.lemma_entry(from(i));
                if q == b.key_at(j) {
                    b.lemma_distinct(i, j);
                }
            }
        }
        if a@.dom().contains(q) {
            let i = a.lemma_find(q);
            let to = if i < j {
                i
            } else {
                i + 1
            };
            assert(b.entries@[to] == a.entries@[i]);
            b.lemma_entry(to);
        }
    }
    assert(b@ =~= t);
}

/// Taking entry `j` out removes its key from the map.
proof fn lemma_removed(a: ChildMap, b: ChildMap, j: int)
    requires
        a.wf(),
        0 <= j < a.count(),
        b.entries@ == a.entries@.remove(j),
    ensures
        b.wf(),
        b@ == a@.remove(a.key_at(j)),
{
    // Where each entry of `b` was in `a`.
    let from = |i: int|
        if i < j {
            i
        } else {
            i + 1
        };
    assert(forall|i: int| 0 <= i < b.entries@.len() ==> #[trigger] b.entries@[i] == a.entries@[from(i)]);
    assert forall|x: int, y: int| 0 <= x < y < b.entries@.len() implies #[trigger] less(
        b.entries@[x].key@,
        b.entries@[y].key@,
    ) by {
        assert(less(a.entries@[from(x)].key@, a.entries@[from(y)].key@));
    }
    let t = a@.remove(a.key_at(j));
    assert forall|q: Seq<Token>| #[trigger] b@.dom().contains(q) == t.dom().contains(q) && (
    t.dom().contains(q) ==> b@[q] == t[q]) by {
        if b@.dom().contains(q) {
            let i = b.lemma_find(q);
            b.lemma_entry(i);
            a.lemma_entry(from(i));
            if q == a.key_at(j) {
                a.lemma_distinct(from(i), j);
            }
        }
        if a@.dom().contains(q) && q != a.key_at(j) {
            let i = a.lemma_find(q);
            let to = if i < j {
                i
            } else {
                i - 1
            };
            assert(b.entries@[to] == a.entries@[i]);
            b.lemma_entry(to);
        }
    }
    assert(b@ =~= t);
}

impl Clone for Child {
    fn clone(&self) -> (r: Self)
        ensures
            r.key@ == self.key@,
            r.node == self.node,
    {
        Child { key: slice_to_vec(self.key.as_slice()), node: self.node }
    }
}

impl Clone for ChildMap {
    fn clone(&self) -> (r: Self)
        ensures
            self.wf() ==> r.wf() && r@ == self@,
    {
        let mut entries: Vec<Child> = Vec::new();
        let mut j: usize = 0;
        while j < self.entries.len()
            invariant
                j <= self.entries@.len(),
                entries@.len() == j,
                forall|i: int|
                    0 <= i < j ==> (#[trigger] entries@[i]).key@ == self.entries@[i].key@
                        && entries@[i].node == self.entries@[i].node,
            decreases self.entries@.len() - j,
        {
            entries.push(self.entries[j].clone());
            j = j + 1;
        }
        let r = Self { entries };
        proof {
            if self.wf() {
                assert forall|i: int, j: int| 0 <= i < j < r.entries@.len() implies #[trigger] less(
                    r.entries@[i].key@,
                    r.entries@[j].key@,
                ) by {
                    assert(less(self.entries@[i].key@, self.entries@[j].key@));
                }
                assert forall|k: Seq<Token>| #[trigger] r@.dom().contains(k) == self@.dom().contains(k)
                    && (r@.dom().contains(k) ==> r@[k] == self@[k]) by {
                    if r@.dom().contains(k) {
                        let i = r.lemma_find(k);
                        r.lemma_entry(i);
                        self.lemma_entry(i);
                    }
                    if self@.dom().contains(k) {
                        let i = self.lemma_find(k);
                        r.lemma_entry(i);
                    }
                }
                assert(r@ =~= self@);
            }
        }
        r
    }
}

} // verus!
