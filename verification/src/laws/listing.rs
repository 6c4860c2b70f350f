//! What a dump lists.

use crate::changes::{lemma_lengths, same_refs, same_tree};
use crate::dump::{rows_view, DumpRow};
use crate::model::{CacheModel, DumpEntry, ROOT};
use crate::sums::sum_below;
use vstd::prelude::*;

verus! {

/// Where node `i` stands in a dump: after the nodes of the tree with a lower id.
pub open spec fn row_of(m: CacheModel, i: int) -> int {
    m.dump_below(i as nat).len() as int
}

/// A dump of the nodes below `n` lists those of the tree, in order.
proof fn lemma_dump_below(m: CacheModel, n: nat, i: int)
    requires
        n <= m.nodes.len(),
        0 <= i < n,
    ensures
        row_of(m, i) <= m.dump_below(n).len(),
        m.live(i) ==> row_of(m, i) < m.dump_below(n).len(),
        m.live(i) ==> m.dump_below(n)[row_of(m, i)] == (
            i,
            m.nodes[i].parent,
            m.key(i),
            m.value(i),
            m.nodes[i].ref_count,
        ),
    decreases n,
{
    if i < n - 1 {
        lemma_dump_below(m, (n - 1) as nat, i);
    }
}

/// A dump lists every node of the tree with what it holds, in the order of the ids.
pub proof fn law_dump_lists_nodes(m: CacheModel, i: int)
    requires
        m.live(i),
    ensures
        row_of(m, i) < m.dump().len(),
        m.dump()[row_of(m, i)] == (
            i,
            m.nodes[i].parent,
            m.key(i),
            m.value(i),
            m.nodes[i].ref_count,
        ),
        forall|j: int| #[trigger] m.live(j) && j < i ==> row_of(m, j) < row_of(m, i),
{
    lemma_dump_below(m, m.nodes.len(), i);
    assert forall|j: int| #[trigger] m.live(j) && j < i implies row_of(m, j) < row_of(m, i) by {
        lemma_dump_below(m, i as nat, j);
    }
}

/// A row of a dump shows its numbers and its runs of tokens as they are, and rows stay in their
/// places.
pub proof fn law_rows_show_themselves(rows: Seq<DumpRow>, k: int)
    requires
        0 <= k < rows.len(),
    ensures
        ({
            let row = rows[k];
            let shown = rows_view(rows)[k];
            &&& rows_view(rows).len() == rows.len()
            &&& shown.0 == row.0
            &&& shown.1 is None <==> row.1 is None
            &&& row.1 is Some ==> shown.1->0 == row.1->0
            &&& shown.2 == row.2@
            &&& shown.3 == row.3@
            &&& shown.4 == row.4
        }),
{
}

/// Every row of a dump of the nodes below `n` is that of a node.
proof fn lemma_dump_rows(m: CacheModel, n: nat, k: int) -> (i: int)
    requires
        n <= m.nodes.len(),
        0 <= k < m.dump_below(n).len(),
    ensures
        0 <= i < n,
        m.live(i),
        row_of(m, i) == k,
    decreases n,
{
    if k < m.dump_below((n - 1) as nat).len() {
        lemma_dump_rows(m, (n - 1) as nat, k)
    } else {
        n - 1
    }
}

/// A dump lists nothing but nodes of the tree.
pub proof fn law_dump_lists_no_more(m: CacheModel, k: int)
    requires
        0 <= k < m.dump().len(),
    ensures
        m.live(m.dump()[k].0),
        row_of(m, m.dump()[k].0) == k,
{
    let i = lemma_dump_rows(m, m.nodes.len(), k);
    law_dump_lists_nodes(m, i);
}

/// Marks of use do not show in a dump.
pub proof fn lemma_same_dump(a: CacheModel, b: CacheModel, n: nat)
    requires
        a.wf(),
        same_tree(a, b),
        same_refs(a, b),
        n <= a.nodes.len(),
    ensures
        a.dump_below(n) == b.dump_below(n),
    decreases n,
{
    if n > 0 {
        let i = n - 1;
        lemma_same_dump(a, b, i as nat);
        let x = a.nodes[i];
        if i != ROOT {
            assert(a.node_ok(i));
            let p = a.nodes[a.parent(i)];
        }
    }
}

/// The tokens that a row of a dump shows, if it is that of a node with locks, or of one without,
/// as asked for. The root has none.
pub open spec fn row_tokens(row: DumpEntry, locked: bool) -> int {
    if row.0 != ROOT && (row.4 > 0) == locked {
        row.2.len() as int
    } else {
        0
    }
}

/// The tokens that rows of a dump show.
pub open spec fn rows_tokens(rows: Seq<DumpEntry>, locked: bool) -> int
    decreases rows.len(),
{
    if rows.len() == 0 {
        0
    } else {
        rows_tokens(rows.drop_last(), locked) + row_tokens(rows.last(), locked)
    }
}

/// The rows of the nodes below `n` show the tokens that these nodes hold.
proof fn lemma_rows_tokens(m: CacheModel, n: nat)
    requires
        m.wf(),
        n <= m.nodes.len(),
    ensures
        rows_tokens(m.dump_below(n), false) == sum_below(|i: int| m.evictable_count(i), n),
        rows_tokens(m.dump_below(n), true) == sum_below(|i: int| m.protected_count(i), n),
    decreases n,
{
    if n > 0 {
        let i = n - 1;
        lemma_rows_tokens(m, i as nat);
        if m.nodes[i].alive {
            lemma_lengths(m, i);
            let rows = m.dump_below(n);
            assert(rows.drop_last() =~= m.dump_below(i as nat));
        }
    }
}

/// The sizes are what the rows of a dump add up to: those without locks to the evictable size,
/// those with locks to the protected one.
pub proof fn law_sizes_are_in_the_dump(m: CacheModel)
    requires
        m.wf(),
    ensures
        m.evictable_size() == rows_tokens(m.dump(), false),
        m.protected_size() == rows_tokens(m.dump(), true),
{
    lemma_rows_tokens(m, m.nodes.len());
}

} // verus!
