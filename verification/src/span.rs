//! Runs of tokens that share their storage.

use crate::model::Token;
use std::sync::Arc;
use vstd::prelude::*;
use vstd::slice::{slice_subrange, slice_to_vec};

verus! {

/// `Arc::clone`: another pointer to the same allocation, so to the same tokens.
#[verifier::external_body]
fn share(data: &Arc<Vec<Token>>) -> (r: Arc<Vec<Token>>)
    ensures
        r == *data,
{
    Arc::clone(data)
}

/// A run of tokens inside a shared buffer. Prefixes and suffixes of a span share the buffer.
#[derive(Debug)]
pub struct TokenSpan {
    data: Arc<Vec<Token>>,
    start: usize,
    len: usize,
}

impl View for TokenSpan {
    type V = Seq<Token>;

    closed spec fn view(&self) -> Seq<Token> {
        self.data@.subrange(self.start as int, self.start + self.len)
    }
}

impl TokenSpan {
    /// Whether the run lies inside the buffer.
    pub closed spec fn wf(&self) -> bool {
        &&& self.start + self.len <= self.data@.len()
        &&& self.start + self.len <= usize::MAX
    }

    /// The run of no tokens.
    pub fn empty() -> (r: Self)
        ensures
            r.wf(),
            r@ == Seq::<Token>::empty(),
    {
        let r = Self { data: Arc::new(Vec::new()), start: 0, len: 0 };
        assert(r@ =~= Seq::<Token>::empty());
        r
    }

    /// A copy of `tokens` in a buffer of its own.
    pub fn from_slice(tokens: &[Token]) -> (r: Self)
        ensures
            r.wf(),
            r@ == tokens@,
    {
        let r = Self { data: Arc::new(slice_to_vec(tokens)), start: 0, len: tokens.len() };
        assert(r@ =~= tokens@);
        r
    }

    pub fn len(&self) -> (r: usize)
        requires
            self.wf(),
        ensures
            r == self@.len(),
    {
        self.len
    }

    pub fn is_empty(&self) -> (r: bool)
        requires
            self.wf(),
        ensures
            r == (self@.len() == 0),
    {
        self.len == 0
    }

    pub fn as_slice(&self) -> (r: &[Token])
        requires
            self.wf(),
        ensures
            r@ == self@,
    {
        slice_subrange(self.data.as_slice(), self.start, self.start + self.len)
    }

    /// The first `len` tokens.
    pub fn prefix(&self, len: usize) -> (r: Self)
        requires
            self.wf(),
            len <= self@.len(),
        ensures
            r.wf(),
            r@ == self@.take(len as int),
    {
        let r = Self { data: share(&self.data), start: self.start, len };
        assert(r@ =~= self@.take(len as int));
        r
    }

    /// The tokens from `offset` on.
    pub fn suffix_from(&self, offset: usize) -> (r: Self)
        requires
            self.wf(),
            offset <= self@.len(),
        ensures
            r.wf(),
            r@ == self@.skip(offset as int),
    {
        let r = Self {
            data: share(&self.data),
            start: self.start + offset,
            len: self.len - offset,
        };
        assert(r@ =~= self@.skip(offset as int));
        r
    }

    pub fn to_vec(&self) -> (r: Vec<Token>)
        requires
            self.wf(),
        ensures
            r@ == self@,
    {
        slice_to_vec(self.as_slice())
    }
}

impl Clone for TokenSpan {
    fn clone(&self) -> (r: Self)
        ensures
            r == *self,
    {
        Self { data: share(&self.data), start: self.start, len: self.len }
    }
}

/// How many tokens two runs have in common at their start.
pub fn common_prefix_len(lhs: &[Token], rhs: &[Token]) -> (r: usize)
    ensures
        r <= lhs@.len(),
        r <= rhs@.len(),
        lhs@.take(r as int) == rhs@.take(r as int),
        r < lhs@.len() && r < rhs@.len() ==> lhs@[r as int] != rhs@[r as int],
{
    let mut n: usize = 0;
    while n < lhs.len() && n < rhs.len() && lhs[n] == rhs[n]
        invariant
            n <= lhs@.len(),
            n <= rhs@.len(),
            forall|k: int| 0 <= k < n ==> lhs@[k] == rhs@[k],
        decreases lhs@.len() - n,
    {
        n = n + 1;
    }
    assert(lhs@.take(n as int) =~= rhs@.take(n as int));
    n
}

/// Whether two runs are the same.
pub fn same_tokens(lhs: &[Token], rhs: &[Token]) -> (r: bool)
    ensures
        r == (lhs@ == rhs@),
{
    if lhs.len() != rhs.len() {
        return false;
    }
    let n = common_prefix_len(lhs, rhs);
    if n == lhs.len() {
        assert(lhs@ =~= lhs@.take(n as int));
        assert(rhs@ =~= rhs@.take(n as int));
        true
    } else {
        false
    }
}

} // verus!
