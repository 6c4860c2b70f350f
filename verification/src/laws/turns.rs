//! Courses of calls: what holds when several callers share a cache.
//!
//! A lock gives its holders turns, one after the other, and each finds what the last one left.
//! So what several threads do to a shared cache is a course of calls, in the order in which they
//! took the lock. Nothing is known of that order: the laws here hold of every course.

use crate::align::{aligned_down, lemma_aligned_down, lemma_aligned_gap};
use crate::cache::{
    evict_step, insert_step, is_lookup, lock_step, match_step, read_step, unlock_step, InsertResult,
    MatchResult, RadixCacheHandle,
};
use crate::changes::lemma_lengths;
use crate::concurrent::ConcurrentRadixPrefixCache;
use crate::laws::contents::{
    law_empty_cache, law_indices_agree, law_indices_of_prefix, law_insert_adds_the_input,
    law_insert_keeps_contents, law_insert_keeps_handles, law_insert_then_lookup,
    law_match_keeps_contents, law_match_keeps_handles, law_prefixes_are_held, law_tail_is_ignored,
    lemma_live_readable,
};
use crate::laws::eviction::{
    law_evict_keeps_balance, law_evict_takes_unlocked, law_own_lock_protects,
};
use crate::laws::locking::{
    law_balanced_drains, law_insert_keeps_balance, law_insert_keeps_own_locks, law_lock_is_own,
    law_lock_keeps_balance, law_locks_keep_contents, law_locks_keep_handles,
    law_match_keeps_balance, law_match_keeps_own_locks, law_unlock_is_own, law_unlock_keeps_balance,
    lemma_locked_wf,
};
use crate::lookup::{lemma_matched_len, lemma_matched_len_is};
use crate::matching::{lemma_after_insert, lemma_after_match};
use crate::model::{empty_cache, CacheModel, DumpEntry, SizeModel, Token, ROOT};
use crate::trie::{lemma_prefix_pair, lemma_prefix_self, lemma_take_is_prefix};
use vstd::arithmetic::div_mod::{lemma_mod_self_0, lemma_small_mod};
use vstd::prelude::*;

verus! {

/// A call on a cache.
pub enum Call {
    Match { input: Seq<Token> },
    Insert { input: Seq<Token>, indices: Seq<Token> },
    Lock { node: int },
    Unlock { node: int },
    Evict { size: nat },
    Reset,
    Lookup { input: Seq<Token> },
    Read { node: int, len: int },
    Sizes,
    Dump,
    PageSize,
    Check,
}

/// What a call gives.
pub enum Answer {
    /// The call was not possible, and did nothing.
    Refused,
    Done,
    Place { node: int, len: int },
    Inserted { cached_len: int, node: int, len: int },
    Found { node: int, len: int, indices: Seq<Token> },
    Indices(Seq<Token>),
    Sizes(SizeModel),
    Rows(Seq<DumpEntry>),
    PageSize(nat),
}

/// What a call on cache `m` leaves, and what it gives.
pub open spec fn respond(m: CacheModel, call: Call) -> (CacheModel, Answer) {
    match call {
        Call::Match { input } => if m.clock < u64::MAX {
            (
                m.after_match(input),
                Answer::Place { node: m.match_node(input), len: m.matched_len(input) as int },
            )
        } else {
            (m, Answer::Refused)
        },
        Call::Insert { input, indices } => if input.len() == indices.len() && m.after_insert(
            input,
            indices,
        ).fits() {
            let len = m.insert_len(input.len());
            (
                m.after_insert(input, indices),
                Answer::Inserted {
                    cached_len: m.matched_len(input.take(len as int)) as int,
                    node: m.insert_node(input),
                    len: len as int,
                },
            )
        } else {
            (m, Answer::Refused)
        },
        Call::Lock { node } => if m.can_lock(node) {
            (m.after_lock(node), Answer::Done)
        } else {
            (m, Answer::Refused)
        },
        Call::Unlock { node } => if m.can_unlock(node) {
            (m.after_unlock(node), Answer::Done)
        } else {
            (m, Answer::Refused)
        },
        Call::Evict { size } => if size <= m.drainable_size() {
            (m.evict(size).0, Answer::Indices(m.evict(size).1))
        } else {
            (m, Answer::Refused)
        },
        Call::Reset => (empty_cache(m.page_size), Answer::Done),
        Call::Lookup { input } => (
            m,
            Answer::Found {
                node: m.node_over(m.matched(input)),
                len: m.matched_len(input) as int,
                indices: m.indices_for(m.matched(input)),
            },
        ),
        Call::Read { node, len } => (
            m,
            if m.readable(node, len) {
                Answer::Indices(m.indices_of(node, len))
            } else {
                Answer::Refused
            },
        ),
        Call::Sizes => (m, Answer::Sizes(m.sizes())),
        Call::Dump => (m, Answer::Rows(m.dump())),
        Call::PageSize => (m, Answer::PageSize(m.page_size)),
        Call::Check => (m, Answer::Done),
    }
}

/// What a course of calls leaves of cache `m`.
pub open spec fn after(m: CacheModel, calls: Seq<Call>) -> CacheModel
    decreases calls.len(),
{
    if calls.len() == 0 {
        m
    } else {
        respond(after(m, calls.drop_last()), calls.last()).0
    }
}

/// What call `k` of a course finds.
pub open spec fn found(m: CacheModel, calls: Seq<Call>, k: int) -> CacheModel {
    after(m, calls.take(k))
}

/// What call `k` of a course gives.
pub open spec fn answer(m: CacheModel, calls: Seq<Call>, k: int) -> Answer {
    respond(found(m, calls, k), calls[k]).1
}

/// One holder's turn: what was found, the call, what was given, and what was left.
pub struct Turn {
    pub found: CacheModel,
    pub call: Call,
    pub given: Answer,
    pub left: CacheModel,
}

/// Whether the turns follow each other from cache `m` on: each is that of its call, and finds
/// what the one before it left.
pub open spec fn follow(m: CacheModel, turns: Seq<Turn>) -> bool {
    forall|k: int|
        0 <= k < turns.len() ==> {
            let t = #[trigger] turns[k];
            &&& respond(t.found, t.call) == (t.left, t.given)
            &&& t.found == if k == 0 {
                m
            } else {
                turns[k - 1].left
            }
        }
}

/// The calls of some turns.
pub open spec fn calls_of(turns: Seq<Turn>) -> Seq<Call> {
    Seq::new(turns.len(), |k: int| turns[k].call)
}

/// Turns that follow each other are a course of calls, and give, call by call, what the calls
/// give on a cache that nobody else has: a cache behind a lock answers like the cache that was
/// put there.
pub proof fn law_turns_answer_like_calls(m: CacheModel, turns: Seq<Turn>, k: int)
    requires
        follow(m, turns),
        0 <= k < turns.len(),
    ensures
        turns[k].found == found(m, calls_of(turns), k),
        turns[k].given == answer(m, calls_of(turns), k),
        turns[k].left == after(m, calls_of(turns).take(k + 1)),
    decreases k,
{
    let calls = calls_of(turns);
    let t = turns[k];
    if k > 0 {
        law_turns_answer_like_calls(m, turns, k - 1);
    }
    assert(calls.take(k + 1).drop_last() =~= calls.take(k));
}

/// Turns at a shared cache that follow each other from the cache it was made with give, call by
/// call, what the calls give on that cache.
pub proof fn law_shared_answers_like_bare(
    shared: ConcurrentRadixPrefixCache,
    turns: Seq<Turn>,
    k: int,
)
    requires
        follow(shared.initial(), turns),
        0 <= k < turns.len(),
    ensures
        turns[k].given == answer(shared.initial(), calls_of(turns), k),
        turns[k].left == after(shared.initial(), calls_of(turns).take(k + 1)),
{
    law_turns_answer_like_calls(shared.initial(), turns, k);
}

/// What a match gives, as an answer.
pub open spec fn match_answer(r: Option<MatchResult>) -> Answer {
    match r {
        Some(v) => Answer::Place { node: v.handle.id(), len: v.handle.len() },
        None => Answer::Refused,
    }
}

/// What an insertion gives, as an answer.
pub open spec fn insert_answer(r: Option<InsertResult>) -> Answer {
    match r {
        Some(v) => Answer::Inserted {
            cached_len: v.cached_len as int,
            node: v.handle.id(),
            len: v.handle.len(),
        },
        None => Answer::Refused,
    }
}

/// What was done or not, as an answer.
pub open spec fn done_answer(r: bool) -> Answer {
    if r {
        Answer::Done
    } else {
        Answer::Refused
    }
}

/// What indices were given, as an answer.
pub open spec fn indices_answer(r: Option<Vec<Token>>) -> Answer {
    match r {
        Some(v) => Answer::Indices(v@),
        None => Answer::Refused,
    }
}

/// The methods of both caches make the calls. Their contracts say what is found, what is left and
/// what is given, for the shared cache by what was written in one turn at its lock: that is the
/// call's turn.
pub proof fn law_methods_make_calls(was: CacheModel, now: CacheModel)
    ensures
        forall|input: Seq<Token>, r: Option<MatchResult>| #[trigger]
            match_step(was, now, input, r) ==> respond(was, Call::Match { input }) == (
                now,
                match_answer(r),
            ),
        forall|input: Seq<Token>, indices: Seq<Token>, r: Option<InsertResult>| #[trigger]
            insert_step(was, now, input, indices, r) ==> respond(
                was,
                Call::Insert { input, indices },
            ) == (now, insert_answer(r)),
        forall|node: int, r: bool| #[trigger]
            lock_step(was, now, node, r) ==> respond(was, Call::Lock { node }) == (
                now,
                done_answer(r),
            ),
        forall|node: int, r: bool| #[trigger]
            unlock_step(was, now, node, r) ==> respond(was, Call::Unlock { node }) == (
                now,
                done_answer(r),
            ),
        forall|size: nat, r: Option<Vec<Token>>| #[trigger]
            evict_step(was, now, size, r) ==> respond(was, Call::Evict { size }) == (
                now,
                indices_answer(r),
            ),
        forall|handle: RadixCacheHandle, r: Option<Vec<Token>>| #[trigger]
            read_step(was, handle, r) ==> respond(
                was,
                Call::Read { node: handle.id(), len: handle.len() },
            ) == (was, indices_answer(r)),
        forall|input: Seq<Token>, r: MatchResult| #[trigger]
            is_lookup(was, input, r) ==> respond(was, Call::Lookup { input }) == (
                was,
                Answer::Found {
                    node: r.handle.id(),
                    len: r.handle.len(),
                    indices: was.indices_for(was.matched(input)),
                },
            ),
{
}

/// Whether a call takes nothing out of the cache.
pub open spec fn adds_only(call: Call) -> bool {
    !(call is Evict) && !(call is Reset)
}

/// Whether a call only reads.
pub open spec fn reads_only(call: Call) -> bool {
    ||| call is Lookup
    ||| call is Read
    ||| call is Sizes
    ||| call is Dump
    ||| call is PageSize
    ||| call is Check
}

/// Every call leaves a cache that is well-formed, with pages of the same size.
pub proof fn law_call_keeps_form(m: CacheModel, call: Call)
    requires
        m.wf(),
    ensures
        respond(m, call).0.wf(),
        respond(m, call).0.page_size == m.page_size,
{
    match call {
        Call::Match { input } => {
            lemma_after_match(m, input);
        },
        Call::Insert { input, indices } => {
            if input.len() == indices.len() {
                lemma_after_insert(m, input, indices);
            }
        },
        Call::Lock { node } => {
            if m.can_lock(node) {
                lemma_locked_wf(m, node);
            }
        },
        Call::Unlock { node } => {
            if m.can_unlock(node) {
                lemma_locked_wf(m, node);
            }
        },
        Call::Evict { size } => {
            law_evict_takes_unlocked(m, size, 0);
        },
        Call::Reset => {
            law_empty_cache(m.page_size, Seq::empty());
        },
        _ => {},
    }
}

/// Every course leaves a cache that is well-formed, with pages of the same size.
pub proof fn law_course_keeps_form(m: CacheModel, calls: Seq<Call>)
    requires
        m.wf(),
    ensures
        after(m, calls).wf(),
        after(m, calls).page_size == m.page_size,
    decreases calls.len(),
{
    if calls.len() > 0 {
        law_course_keeps_form(m, calls.drop_last());
        law_call_keeps_form(after(m, calls.drop_last()), calls.last());
    }
}

/// Readers change nothing, however many there are: all of them find the same cache.
pub proof fn law_readers_agree(m: CacheModel, calls: Seq<Call>, k: int)
    requires
        forall|j: int| 0 <= j < calls.len() ==> reads_only(#[trigger] calls[j]),
        0 <= k < calls.len(),
    ensures
        found(m, calls, k) == m,
        answer(m, calls, k) == respond(m, calls[k]).1,
        after(m, calls) == m,
{
    lemma_reading(m, calls);
    lemma_reading(m, calls.take(k));
}

proof fn lemma_reading(m: CacheModel, calls: Seq<Call>)
    requires
        forall|j: int| 0 <= j < calls.len() ==> reads_only(#[trigger] calls[j]),
    ensures
        after(m, calls) == m,
    decreases calls.len(),
{
    if calls.len() > 0 {
        lemma_reading(m, calls.drop_last());
        assert(reads_only(calls[calls.len() - 1]));
    }
}

/// A call that takes nothing out keeps what is cached, with its indices.
proof fn lemma_call_keeps_contents(m: CacheModel, call: Call, s: Seq<Token>)
    requires
        m.wf(),
        adds_only(call),
        m.holds(s),
    ensures
        respond(m, call).0.holds(s),
        respond(m, call).0.indices_for(s) == m.indices_for(s),
{
    match call {
        Call::Match { input } => {
            law_match_keeps_contents(m, input, s);
        },
        Call::Insert { input, indices } => {
            if input.len() == indices.len() {
                law_insert_keeps_contents(m, input, indices, s);
            }
        },
        Call::Lock { node } => {
            if m.can_lock(node) {
                law_locks_keep_contents(m, node, s);
            }
        },
        Call::Unlock { node } => {
            if m.can_unlock(node) {
                law_locks_keep_contents(m, node, s);
            }
        },
        _ => {},
    }
}

/// As long as nobody evicts or resets, whatever is cached stays cached, with its indices.
pub proof fn law_cached_stays_cached(m: CacheModel, calls: Seq<Call>, s: Seq<Token>)
    requires
        m.wf(),
        forall|j: int| 0 <= j < calls.len() ==> adds_only(#[trigger] calls[j]),
        m.holds(s),
    ensures
        after(m, calls).holds(s),
        after(m, calls).indices_for(s) == m.indices_for(s),
    decreases calls.len(),
{
    if calls.len() > 0 {
        let before = calls.drop_last();
        assert forall|j: int| 0 <= j < before.len() implies adds_only(#[trigger] before[j]) by {
            assert(before[j] == calls[j]);
        }
        law_cached_stays_cached(m, before, s);
        law_course_keeps_form(m, before);
        assert(adds_only(calls[calls.len() - 1]));
        lemma_call_keeps_contents(after(m, before), calls.last(), s);
    }
}

/// An input of which all whole pages are held is found as far.
proof fn lemma_found_whole(m: CacheModel, input: Seq<Token>)
    requires
        m.wf(),
        m.holds(input.take(m.insert_len(input.len()) as int)),
    ensures
        m.matched_len(input) == m.insert_len(input.len()),
        m.matched(input) == input.take(m.insert_len(input.len()) as int),
{
    let len = m.insert_len(input.len());
    let s = input.take(len as int);
    lemma_aligned_down(input.len(), m.page_size);
    law_tail_is_ignored(m, input);
    assert(s.take(len as int) =~= s);
    assert(m.is_longest_match(s, len));
    lemma_matched_len_is(m, s, len);
}

/// As long as nobody evicts or resets, lookups of an input of which all whole pages are cached
/// agree, whatever else goes on in between.
pub proof fn law_lookups_agree(m: CacheModel, calls: Seq<Call>, query: Seq<Token>)
    requires
        m.wf(),
        forall|j: int| 0 <= j < calls.len() ==> adds_only(#[trigger] calls[j]),
        m.matched_len(query) == m.insert_len(query.len()),
    ensures
        after(m, calls).matched_len(query) == m.matched_len(query),
        after(m, calls).indices_for(after(m, calls).matched(query)) == m.indices_for(
            m.matched(query),
        ),
{
    lemma_matched_len(m, query);
    law_course_keeps_form(m, calls);
    law_cached_stays_cached(m, calls, m.matched(query));
    lemma_found_whole(after(m, calls), query);
}

/// As long as nobody evicts or resets, whatever anyone has inserted is found, with the indices
/// that the insertion left it with.
pub proof fn law_insertions_are_found(
    m: CacheModel,
    calls: Seq<Call>,
    k: int,
    input: Seq<Token>,
    indices: Seq<Token>,
)
    requires
        m.wf(),
        forall|j: int| 0 <= j < calls.len() ==> adds_only(#[trigger] calls[j]),
        0 <= k < calls.len(),
        calls[k] == (Call::Insert { input, indices }),
        !(answer(m, calls, k) is Refused),
    ensures
        ({
            let before = found(m, calls, k);
            let t = after(m, calls);
            let len = m.insert_len(input.len());
            &&& t.matched_len(input) == len
            &&& t.indices_for(t.matched(input)) == before.indices_for(before.matched(input))
                + indices.subrange(before.matched_len(input) as int, len as int)
        }),
    decreases calls.len(),
{
    let len = m.insert_len(input.len());
    let before = found(m, calls, k);
    law_course_keeps_form(m, calls.take(k));
    law_insert_then_lookup(before, input, indices);
    let left = before.after_insert(input, indices);
    let rest = calls.skip(k + 1);
    assert(calls.take(k + 1).drop_last() =~= calls.take(k));
    assert(left == after(m, calls.take(k + 1)));
    lemma_two_courses(m, calls.take(k + 1), rest);
    assert(calls.take(k + 1) + rest =~= calls);
    law_course_keeps_form(m, calls.take(k + 1));
    assert forall|j: int| 0 <= j < rest.len() implies adds_only(#[trigger] rest[j]) by {
        assert(rest[j] == calls[k + 1 + j]);
    }
    law_lookups_agree(left, rest, input);
}

/// One course after another is a course.
proof fn lemma_two_courses(m: CacheModel, first: Seq<Call>, second: Seq<Call>)
    ensures
        after(m, first + second) == after(after(m, first), second),
    decreases second.len(),
{
    if second.len() > 0 {
        lemma_two_courses(m, first, second.drop_last());
        assert((first + second).drop_last() =~= first + second.drop_last());
    } else {
        assert(first + second =~= first);
    }
}

/// The tokens that a course of insertions is handed in whole pages.
pub open spec fn handed_in(page_size: nat, calls: Seq<Call>) -> int
    decreases calls.len(),
{
    if calls.len() == 0 {
        0
    } else {
        handed_in(page_size, calls.drop_last()) + match calls.last() {
            Call::Insert { input, .. } => aligned_down(input.len(), page_size) as int,
            _ => 0,
        }
    }
}

/// The first page of what a call inserts.
pub open spec fn first_page(page_size: nat, call: Call) -> Seq<Token> {
    call->Insert_input.take(page_size as int)
}

/// Whether all calls of a course are insertions of at least a page, none is refused, none starts
/// with a page that cache `m` holds, and no two start with the same page.
pub open spec fn strangers(m: CacheModel, calls: Seq<Call>) -> bool {
    &&& forall|j: int|
        0 <= j < calls.len() ==> {
            let call = #[trigger] calls[j];
            &&& call is Insert
            &&& call->Insert_input.len() >= m.page_size
            &&& !m.holds(first_page(m.page_size, call))
            &&& !(answer(m, calls, j) is Refused)
        }
    &&& forall|i: int, j: int|
        0 <= i < j < calls.len() ==> first_page(m.page_size, #[trigger] calls[i]) != first_page(
            m.page_size,
            #[trigger] calls[j],
        )
}

/// The start of a course of strangers is one.
proof fn lemma_strangers_before(m: CacheModel, calls: Seq<Call>, k: int)
    requires
        strangers(m, calls),
        0 <= k <= calls.len(),
    ensures
        strangers(m, calls.take(k)),
{
    let before = calls.take(k);
    assert forall|j: int| 0 <= j < before.len() implies {
        let call = #[trigger] before[j];
        &&& call is Insert
        &&& call->Insert_input.len() >= m.page_size
        &&& !m.holds(first_page(m.page_size, call))
        &&& !(answer(m, before, j) is Refused)
    } by {
        assert(before[j] == calls[j]);
        assert(before.take(j) =~= calls.take(j));
    }
}

/// A course of strangers leaves nothing cached but what was, and starts of what was inserted.
proof fn lemma_strangers_hold(m: CacheModel, calls: Seq<Call>, s: Seq<Token>)
    requires
        m.wf(),
        strangers(m, calls),
        after(m, calls).holds(s),
    ensures
        m.holds(s) || exists|j: int|
            0 <= j < calls.len() && s.is_prefix_of((#[trigger] calls[j])->Insert_input),
    decreases calls.len(),
{
    if calls.len() > 0 {
        let last = calls.len() - 1;
        let before = calls.drop_last();
        assert(before =~= calls.take(last));
        lemma_strangers_before(m, calls, last);
        law_course_keeps_form(m, before);
        let call = calls[last];
        let input = call->Insert_input;
        let indices = call->Insert_indices;
        assert(!(answer(m, calls, last) is Refused));
        law_insert_adds_the_input(after(m, before), input, indices, s);
        if after(m, before).holds(s) {
            lemma_strangers_hold(m, before, s);
            if !m.holds(s) {
                let j = choose|j: int|
                    0 <= j < before.len() && s.is_prefix_of((#[trigger] before[j])->Insert_input);
                assert(before[j] == calls[j]);
            }
        }
    }
}

/// What a stranger inserts was not cached at all when its turn came.
proof fn lemma_stranger_finds_nothing(m: CacheModel, calls: Seq<Call>, k: int)
    requires
        m.wf(),
        strangers(m, calls),
        0 <= k < calls.len(),
    ensures
        found(m, calls, k).wf(),
        found(m, calls, k).page_size == m.page_size,
        found(m, calls, k).matched_len(calls[k]->Insert_input) == 0,
{
    let call = calls[k];
    let input = call->Insert_input;
    let before = calls.take(k);
    let t = after(m, before);
    let page = first_page(m.page_size, call);
    law_course_keeps_form(m, before);
    lemma_strangers_before(m, calls, k);
    lemma_matched_len(t, input);
    let l = t.matched_len(input);
    if l > 0 {
        lemma_small_mod(0, m.page_size);
        lemma_aligned_gap(0, l, m.page_size);
        assert(page =~= t.matched(input).take(m.page_size as int));
        lemma_take_is_prefix(t.matched(input), m.page_size as int);
        assert(page.len() % m.page_size == 0) by {
            lemma_mod_self_0(m.page_size as int);
        }
        law_prefixes_are_held(t, t.matched(input), page);
        lemma_strangers_hold(m, before, page);
        let j = choose|j: int|
            0 <= j < before.len() && page.is_prefix_of((#[trigger] before[j])->Insert_input);
        assert(before[j] == calls[j]);
        let other = first_page(m.page_size, calls[j]);
        lemma_take_is_prefix(calls[j]->Insert_input, m.page_size as int);
        lemma_prefix_pair(page, other, calls[j]->Insert_input);
    }
}

/// Whatever the order in which strangers get their turns, all that they insert is found, with
/// their own indices, and the cache has grown by just that.
pub proof fn law_strangers_all_get_in(m: CacheModel, calls: Seq<Call>, k: int)
    requires
        m.wf(),
        strangers(m, calls),
        0 <= k < calls.len(),
    ensures
        ({
            let t = after(m, calls);
            let input = calls[k]->Insert_input;
            let indices = calls[k]->Insert_indices;
            let len = m.insert_len(input.len()) as int;
            &&& t.wf()
            &&& t.total_size() == m.total_size() + handed_in(m.page_size, calls)
            &&& t.matched_len(input) == len
            &&& t.indices_for(t.matched(input)) == indices.take(len)
        }),
{
    let input = calls[k]->Insert_input;
    let indices = calls[k]->Insert_indices;
    let before = found(m, calls, k);
    law_course_keeps_form(m, calls);
    lemma_strangers_total(m, calls);
    lemma_stranger_finds_nothing(m, calls, k);
    assert(!(answer(m, calls, k) is Refused));
    assert forall|j: int| 0 <= j < calls.len() implies adds_only(#[trigger] calls[j]) by {}
    law_insertions_are_found(m, calls, k, input, indices);
    let len = m.insert_len(input.len()) as int;
    lemma_matched_len(before, input);
    lemma_after_insert(before, input, indices);
    law_indices_of_prefix(before, before.matched(input), before.matched(input));
    lemma_prefix_self(before.matched(input));
    assert(before.indices_for(before.matched(input)) + indices.subrange(0, len) =~= indices.take(
        len,
    ));
}

/// The sizes that strangers add.
proof fn lemma_strangers_total(m: CacheModel, calls: Seq<Call>)
    requires
        m.wf(),
        strangers(m, calls),
    ensures
        after(m, calls).total_size() == m.total_size() + handed_in(m.page_size, calls),
    decreases calls.len(),
{
    if calls.len() > 0 {
        let last = calls.len() - 1;
        let before = calls.drop_last();
        assert(before =~= calls.take(last));
        lemma_strangers_before(m, calls, last);
        lemma_strangers_total(m, before);
        lemma_stranger_finds_nothing(m, calls, last);
        let input = calls[last]->Insert_input;
        assert(!(answer(m, calls, last) is Refused));
        law_tail_is_ignored(after(m, before), input);
        lemma_after_insert(after(m, before), input, calls[last]->Insert_indices);
    }
}

/// Whether call `k` of a course leaves a lock on node `n` to its owner: nobody resets, and nobody
/// gives back a lock but one that was taken, other than the owner's.
pub open spec fn leaves_lock(m: CacheModel, calls: Seq<Call>, n: int, k: int) -> bool {
    match calls[k] {
        Call::Reset => false,
        Call::Unlock { node } => node == ROOT || found(m, calls, k).own_locks(node) >= if node == n {
            2int
        } else {
            1
        },
        _ => true,
    }
}

/// What the owner of a lock on node `n` relies on: the node is in the tree with a lock of its own,
/// and the locks are in balance.
pub open spec fn owned(m: CacheModel, n: int) -> bool {
    &&& m.wf()
    &&& m.balanced()
    &&& n != ROOT
    &&& m.live(n)
    &&& m.own_locks(n) >= 1
}

/// A call that leaves a lock to its owner keeps what the lock protects.
proof fn lemma_call_keeps_lock(m: CacheModel, call: Call, n: int, len: int)
    requires
        owned(m, n),
        !(call is Reset),
        call matches Call::Unlock { node } ==> node == ROOT || m.own_locks(node) >= if node == n {
            2int
        } else {
            1
        },
    ensures
        owned(respond(m, call).0, n),
        respond(m, call).0.prefix(n) == m.prefix(n),
        respond(m, call).0.readable(n, len),
        respond(m, call).0.indices_of(n, len) == m.indices_of(n, len),
{
    law_call_keeps_form(m, call);
    lemma_live_readable(m, n, len);
    match call {
        Call::Match { input } => {
            if m.clock < u64::MAX {
                law_match_keeps_handles(m, input, n, len);
                law_match_keeps_own_locks(m, input, n);
                law_match_keeps_balance(m, input);
            }
        },
        Call::Insert { input, indices } => {
            if input.len() == indices.len() && m.after_insert(input, indices).fits() {
                law_insert_keeps_handles(m, input, indices, n, len);
                law_insert_keeps_own_locks(m, input, indices, n);
                law_insert_keeps_balance(m, input, indices);
            }
        },
        Call::Lock { node } => {
            if m.can_lock(node) {
                law_locks_keep_handles(m, node, n, len);
                law_lock_is_own(m, node, n);
                law_lock_keeps_balance(m, node);
            }
        },
        Call::Unlock { node } => {
            if m.can_unlock(node) {
                law_locks_keep_handles(m, node, n, len);
                law_unlock_is_own(m, node, n);
                law_unlock_keeps_balance(m, node);
            }
        },
        Call::Evict { size } => {
            if size <= m.drainable_size() {
                law_own_lock_protects(m, size, n, len);
                law_evict_keeps_balance(m, size);
            }
        },
        _ => {},
    }
}

/// A lock protects through everything that others do, as long as they give back only locks of
/// their own: what a handle to the node stands for stays, its prefix stays cached, and all that is
/// counted as evictable can be evicted at any time.
pub proof fn law_lock_outlives_others(m: CacheModel, calls: Seq<Call>, n: int, len: int)
    requires
        owned(m, n),
        forall|k: int| 0 <= k < calls.len() ==> #[trigger] leaves_lock(m, calls, n, k),
    ensures
        ({
            let t = after(m, calls);
            &&& owned(t, n)
            &&& t.prefix(n) == m.prefix(n)
            &&& t.readable(n, len)
            &&& t.indices_of(n, len) == m.indices_of(n, len)
            &&& t.holds(m.prefix(n))
            &&& t.indices_for(m.prefix(n)) == m.indices_for(m.prefix(n))
            &&& t.drainable_size() == t.evictable_size()
        }),
{
    lemma_lock_outlives(m, calls, n, len);
    let t = after(m, calls);
    let s = m.prefix(n);
    lemma_lock_outlives(m, calls, n, s.len() as int);
    lemma_prefix_self(s);
    lemma_lengths(m, n);
    lemma_lengths(t, n);
    law_indices_agree(m, s, n);
    law_indices_agree(t, s, n);
    assert(m.nodes[n].indices =~= m.nodes[n].indices.take(s.len() as int));
    assert(t.nodes[n].indices =~= t.nodes[n].indices.take(s.len() as int));
    law_balanced_drains(t);
}

proof fn lemma_lock_outlives(m: CacheModel, calls: Seq<Call>, n: int, len: int)
    requires
        owned(m, n),
        forall|k: int| 0 <= k < calls.len() ==> #[trigger] leaves_lock(m, calls, n, k),
    ensures
        owned(after(m, calls), n),
        after(m, calls).prefix(n) == m.prefix(n),
        after(m, calls).readable(n, len),
        after(m, calls).indices_of(n, len) == m.indices_of(n, len),
    decreases calls.len(),
{
    if calls.len() > 0 {
        let last = calls.len() - 1;
        let before = calls.drop_last();
        assert(before =~= calls.take(last));
        assert forall|k: int| 0 <= k < before.len() implies #[trigger] leaves_lock(
            m,
            before,
            n,
            k,
        ) by {
            assert(leaves_lock(m, calls, n, k));
            assert(before.take(k) =~= calls.take(k));
        }
        lemma_lock_outlives(m, before, n, len);
        assert(leaves_lock(m, calls, n, last));
        lemma_call_keeps_lock(after(m, before), calls.last(), n, len);
    } else {
        lemma_live_readable(m, n, len);
    }
}

/// Who inserts an input and locks it finds it again, with the same indices, whatever others do
/// meanwhile, as long as they give back only locks of their own.
pub proof fn law_locked_input_stays(
    m: CacheModel,
    input: Seq<Token>,
    indices: Seq<Token>,
    calls: Seq<Call>,
)
    requires
        m.wf(),
        m.balanced(),
        input.len() == indices.len(),
        m.insert_len(input.len()) > 0,
        ({
            let n = m.insert_node(input);
            let start = m.after_insert(input, indices).after_lock(n);
            forall|k: int| 0 <= k < calls.len() ==> #[trigger] leaves_lock(start, calls, n, k)
        }),
    ensures
        ({
            let n = m.insert_node(input);
            let inserted = m.after_insert(input, indices);
            let t = after(inserted.after_lock(n), calls);
            let len = m.insert_len(input.len()) as int;
            &&& owned(t, n)
            &&& t.matched_len(input) == len
            &&& t.indices_for(t.matched(input)) == inserted.indices_for(inserted.matched(input))
            &&& t.readable(n, len)
            &&& t.indices_of(n, len) == inserted.indices_of(n, len)
        }),
{
    let n = m.insert_node(input);
    let inserted = m.after_insert(input, indices);
    let start = inserted.after_lock(n);
    let len = m.insert_len(input.len()) as int;
    lemma_after_insert(m, input, indices);
    law_insert_then_lookup(m, input, indices);
    law_insert_keeps_balance(m, input, indices);
    lemma_locked_wf(inserted, n);
    law_lock_is_own(inserted, n, n);
    law_lock_keeps_balance(inserted, n);
    law_locks_keep_handles(inserted, n, n, len);
    let s = input.take(len);
    lemma_prefix_self(s);
    law_indices_agree(inserted, s, n);
    law_locks_keep_contents(inserted, n, s);
    law_lock_outlives_others(start, calls, n, len);
    lemma_found_whole(inserted, input);
    law_course_keeps_form(start, calls);
    lemma_found_whole(after(start, calls), input);
}

} // verus!
