//! A listing of the nodes, for debugging.

use crate::model::{DumpEntry, Token};
use crate::tree::RadixTree;
use vstd::prelude::*;

verus! {

/// One node of the tree: id, parent, key, value and reference count.
pub type DumpRow = (usize, Option<usize>, Vec<Token>, Vec<Token>, usize);

/// What a row says.
pub open spec fn row_view(row: DumpRow) -> DumpEntry {
    (
        row.0 as int,
        match row.1 {
            Some(p) => Some(p as int),
            None => None,
        },
        row.2@,
        row.3@,
        row.4 as nat,
    )
}

/// What the rows say.
pub open spec fn rows_view(rows: Seq<DumpRow>) -> Seq<DumpEntry> {
    Seq::new(rows.len(), |j: int| row_view(rows[j]))
}

impl RadixTree {
    /// The nodes of the tree in the order of their ids.
    pub fn debug_dump(&self) -> (r: Vec<DumpRow>)
        requires
            self.inv(),
        ensures
            rows_view(r@) == self@.dump(),
    {
        let mut rows: Vec<DumpRow> = Vec::new();
        let mut i: usize = 0;
        while i < self.nodes.len()
            invariant
                self.inv(),
                i <= self.nodes@.len(),
                rows_view(rows@) == self@.dump_below(i as nat),
            decreases self.nodes@.len() - i,
        {
            let n = &self.nodes[i];
            proof {
                assert(self.node_inv(i as int));
            }
            if n.alive {
                let ghost before = rows@;
                rows.push((n.uuid, n.parent, n.key.to_vec(), n.value.to_vec(), n.ref_count));
                proof {
                    let entry = row_view(rows@.last());
                    assert(rows_view(rows@) =~= rows_view(before).push(entry));
                }
            }
            i = i + 1;
        }
        rows
    }
}

} // verus!
