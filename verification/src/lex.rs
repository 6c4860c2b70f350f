//! The lexicographic order of token runs.

use crate::model::Token;
use crate::span::common_prefix_len;
use vstd::prelude::*;

verus! {

/// Whether two runs agree on their first `n` tokens, and no further.
pub open spec fn parts_at(a: Seq<Token>, b: Seq<Token>, n: int) -> bool {
    &&& 0 <= n <= a.len()
    &&& n <= b.len()
    &&& forall|k: int| 0 <= k < n ==> #[trigger] a[k] == b[k]
    &&& n < a.len() && n < b.len() ==> a[n] != b[n]
}

/// Whether `a` comes before `b`: where they part, `a` ends, or has the smaller token.
pub open spec fn less(a: Seq<Token>, b: Seq<Token>) -> bool {
    exists|n: int| #[trigger] parts_at(a, b, n) && n < b.len() && (n == a.len() || a[n] < b[n])
}

/// Nothing comes before itself.
pub proof fn lemma_less_irreflexive(a: Seq<Token>)
    ensures
        !less(a, a),
{
}

pub proof fn lemma_less_trans(a: Seq<Token>, b: Seq<Token>, c: Seq<Token>)
    requires
        less(a, b),
        less(b, c),
    ensures
        less(a, c),
{
    let n = choose|n: int| #[trigger]
        parts_at(a, b, n) && n < b.len() && (n == a.len() || a[n] < b[n]);
    let k = choose|k: int| #[trigger]
        parts_at(b, c, k) && k < c.len() && (k == b.len() || b[k] < c[k]);
    let j = if n < k {
        n
    } else {
        k
    };
    assert forall|i: int| 0 <= i < j implies #[trigger] a[i] == c[i] by {
        assert(a[i] == b[i]);
        assert(b[i] == c[i]);
    }
    if n < k {
        assert(b[n] == c[n]);
    }
    if k < n {
        assert(a[k] == b[k]);
    }
    assert(parts_at(a, c, j));
}

/// Where one run stands to another.
pub enum Side {
    Before,
    Same,
    After,
}

/// Where `lhs` stands to `rhs`.
pub fn side_of(lhs: &[Token], rhs: &[Token]) -> (r: Side)
    ensures
        match r {
            Side::Before => less(lhs@, rhs@),
            Side::Same => lhs@ == rhs@,
            Side::After => less(rhs@, lhs@),
        },
{
    let n = common_prefix_len(lhs, rhs);
    proof {
        assert forall|k: int| 0 <= k < n implies #[trigger] lhs@[k] == rhs@[k] by {
            assert(lhs@.take(n as int)[k] == rhs@.take(n as int)[k]);
        }
        assert(parts_at(lhs@, rhs@, n as int));
        assert(parts_at(rhs@, lhs@, n as int));
    }
    if n == lhs.len() {
        if n == rhs.len() {
            assert(lhs@ =~= rhs@);
            Side::Same
        } else {
            Side::Before
        }
    } else if n == rhs.len() || rhs[n] < lhs[n] {
        Side::After
    } else {
        Side::Before
    }
}

} // verus!
