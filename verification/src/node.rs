//! A node of the radix tree.

use crate::children::ChildMap;
use crate::model::{NodeId, NodeModel, Token, ROOT};
use crate::span::TokenSpan;
use vstd::prelude::*;

verus! {

/// A compressed edge of the tree and the node at its end.
#[derive(Debug)]
pub struct RadixTreeNode {
    /// The tokens of the edge.
    pub key: TokenSpan,
    /// The cache index of each token of `key`.
    pub value: TokenSpan,
    /// The nodes under this one, by the first page of their keys.
    pub children: ChildMap,
    /// The node that this one hangs under; the root has none.
    pub parent: Option<NodeId>,
    /// How many locks protect the node. Only a leaf without any may be evicted.
    pub ref_count: usize,
    /// The node's own id, which orders nodes of the same timestamp for eviction.
    pub uuid: usize,
    /// When the node was last walked through.
    pub timestamp: u64,
    /// Evicted nodes stay where they are, not alive, so that ids remain good.
    pub alive: bool,
}

/// Tokens and their cache indices.
pub type Path = (Seq<Token>, Seq<Token>);

impl RadixTreeNode {
    /// The model of the node, where `path` leads to its end.
    pub open spec fn model(&self, path: Path) -> NodeModel {
        NodeModel {
            prefix: path.0,
            indices: path.1,
            parent: match self.parent {
                Some(p) => Some(p as int),
                None => None,
            },
            ref_count: self.ref_count as nat,
            timestamp: self.timestamp as nat,
            alive: self.alive,
        }
    }

    /// Whether the parts of the node are in order.
    pub open spec fn wf(&self) -> bool {
        &&& self.key.wf()
        &&& self.value.wf()
        &&& self.children.wf()
    }

    /// The root of a new tree.
    pub fn new_root(timestamp: u64) -> (r: Self)
        ensures
            r.wf(),
            r.key@.len() == 0,
            r.value@.len() == 0,
            r.children@ == Map::<Seq<Token>, NodeId>::empty(),
            r.uuid == ROOT,
            r.parent is None,
            r.ref_count == 1,
            r.timestamp == timestamp,
            r.alive,
    {
        Self {
            key: TokenSpan::empty(),
            value: TokenSpan::empty(),
            children: ChildMap::new(),
            parent: None,
            ref_count: 1,
            uuid: ROOT,
            timestamp,
            alive: true,
        }
    }

    /// A node without children and without locks.
    pub fn new(
        key: TokenSpan,
        value: TokenSpan,
        parent: NodeId,
        uuid: usize,
        timestamp: u64,
    ) -> (r: Self)
        requires
            key.wf(),
            value.wf(),
            key@.len() == value@.len(),
            key@.len() > 0,
        ensures
            r.wf(),
            r.key@ == key@,
            r.value@ == value@,
            r.children@ == Map::<Seq<Token>, NodeId>::empty(),
            r.uuid == uuid,
            r.parent == Some(parent),
            r.ref_count == 0,
            r.timestamp == timestamp,
            r.alive,
    {
        Self {
            key,
            value,
            children: ChildMap::new(),
            parent: Some(parent),
            ref_count: 0,
            uuid,
            timestamp,
            alive: true,
        }
    }

    /// How many tokens the node itself holds.
    pub fn len(&self) -> (r: usize)
        requires
            self.wf(),
        ensures
            r == self.key@.len(),
    {
        self.key.len()
    }

    pub fn is_leaf(&self) -> (r: bool)
        requires
            self.wf(),
        ensures
            r == (self.children@ == Map::<Seq<Token>, NodeId>::empty()),
    {
        self.children.is_empty()
    }
}

impl Clone for RadixTreeNode {
    fn clone(&self) -> (r: Self)
        ensures
            r.key == self.key,
            r.value == self.value,
            self.wf() ==> r.wf() && r.children@ == self.children@,
            r.parent == self.parent,
            r.ref_count == self.ref_count,
            r.uuid == self.uuid,
            r.timestamp == self.timestamp,
            r.alive == self.alive,
    {
        Self {
            key: self.key.clone(),
            value: self.value.clone(),
            children: self.children.clone(),
            parent: self.parent,
            ref_count: self.ref_count,
            uuid: self.uuid,
            timestamp: self.timestamp,
            alive: self.alive,
        }
    }
}

} // verus!
