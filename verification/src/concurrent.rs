//! The prefix cache for many threads.
//!
//! What a thread finds in the cache depends on the other threads. The contracts here say what
//! is done with whatever it finds, in terms of the operations of [`RadixPrefixCache`].

use crate::cache::{
    evict_step, insert_step, is_lookup, lock_step, match_step, read_step, unlock_step, write_step,
    InsertResult, LookupResult, MatchResult, RadixCacheHandle, RadixPrefixCache, SizeInfo,
};
use crate::dump::{rows_view, DumpRow};
use crate::model::{empty_cache, CacheModel, Token};
use std::sync::{Arc, PoisonError, RwLock, RwLockReadGuard, RwLockWriteGuard};
use vstd::prelude::*;
use vstd::string::StringExecFns;

verus! {

/// `std::sync::RwLock`.
#[verifier::external_type_specification]
#[verifier::external_body]
#[verifier::reject_recursive_types(T)]
pub struct ExRwLock<T: ?Sized>(RwLock<T>);

/// `std::sync::RwLockReadGuard`.
#[verifier::external_type_specification]
#[verifier::external_body]
#[verifier::reject_recursive_types(T)]
pub struct ExRwLockReadGuard<'a, T: ?Sized>(RwLockReadGuard<'a, T>);

/// `std::sync::RwLockWriteGuard`.
#[verifier::external_type_specification]
#[verifier::external_body]
#[verifier::reject_recursive_types(T)]
pub struct ExRwLockWriteGuard<'a, T: ?Sized + 'a>(RwLockWriteGuard<'a, T>);

/// `std::sync::PoisonError`.
#[verifier::external_type_specification]
#[verifier::external_body]
#[verifier::reject_recursive_types(T)]
pub struct ExPoisonError<T>(PoisonError<T>);

/// The cache that a lock was made with.
pub uninterp spec fn made_with(lock: RwLock<RadixPrefixCache>) -> CacheModel;

/// Whether a read guard is one of a lock, taken when no thread had poisoned it.
pub uninterp spec fn read_guard_of(
    lock: RwLock<RadixPrefixCache>,
    guard: RwLockReadGuard<'_, RadixPrefixCache>,
) -> bool;

/// Whether a write guard is one of a lock, taken when no thread had poisoned it.
pub uninterp spec fn write_guard_of(
    lock: RwLock<RadixPrefixCache>,
    guard: RwLockWriteGuard<'_, RadixPrefixCache>,
) -> bool;

/// The cache that a read guard gives access to.
pub uninterp spec fn read_guarded(guard: RwLockReadGuard<'_, RadixPrefixCache>) -> CacheModel;

/// The cache that a write guard gives access to.
pub uninterp spec fn write_guarded(guard: RwLockWriteGuard<'_, RadixPrefixCache>) -> CacheModel;

/// The cache that was there when a write guard was taken.
pub uninterp spec fn found_by(guard: RwLockWriteGuard<'_, RadixPrefixCache>) -> CacheModel;

/// Whether a write guard was dropped, with the cache under it as the guard then had it: the end of
/// its holder's turn.
pub uninterp spec fn given_up(guard: RwLockWriteGuard<'_, RadixPrefixCache>) -> bool;

/// `RwLock::new`: a lock made with the given cache.
#[verifier::external_body]
fn new_lock(cache: RadixPrefixCache) -> (r: RwLock<RadixPrefixCache>)
    ensures
        made_with(r) == cache@,
{
    RwLock::new(cache)
}

/// `RwLock::read`: waits for a turn to read, and gives a guard of this lock, or an error if a
/// thread panicked while it held the lock to write. Nothing is said of what the cache then
/// holds: other threads may have changed it.
#[verifier::external_body]
fn acquire_read(lock: &RwLock<RadixPrefixCache>) -> (r: Result<
    RwLockReadGuard<'_, RadixPrefixCache>,
    PoisonError<RwLockReadGuard<'_, RadixPrefixCache>>,
>)
    ensures
        r matches Ok(guard) ==> read_guard_of(*lock, guard),
{
    lock.read()
}

/// `RwLock::write`: waits for a turn to write, and gives a guard of this lock, or an error if a
/// thread panicked while it held the lock to write. The guard gives access to the cache that is
/// there. Nothing is said of what that cache holds: other threads may have changed it.
#[verifier::external_body]
fn acquire_write(lock: &RwLock<RadixPrefixCache>) -> (r: Result<
    RwLockWriteGuard<'_, RadixPrefixCache>,
    PoisonError<RwLockWriteGuard<'_, RadixPrefixCache>>,
>)
    ensures
        r matches Ok(guard) ==> write_guard_of(*lock, guard) && found_by(guard) == write_guarded(
            guard,
        ),
{
    lock.write()
}

/// `Deref` of `RwLockReadGuard`: the cache under the guard.
#[verifier::external_body]
fn read_through<'a>(guard: &'a RwLockReadGuard<'_, RadixPrefixCache>) -> (r: &'a RadixPrefixCache)
    ensures
        r@ == read_guarded(*guard),
{
    guard
}

/// `DerefMut` of `RwLockWriteGuard`: the cache under the guard, to be changed in place. The
/// guard stays the same one, of the same lock, and what it found when it was taken stays what it
/// was.
#[verifier::external_body]
fn write_through<'a>(guard: &'a mut RwLockWriteGuard<'_, RadixPrefixCache>) -> (r:
    &'a mut RadixPrefixCache)
    ensures
        r@ == write_guarded(*old(guard)),
        final(r)@ == write_guarded(*final(guard)),
        found_by(*final(guard)) == found_by(*old(guard)),
        forall|lock: RwLock<RadixPrefixCache>|
            write_guard_of(lock, *old(guard)) == #[trigger] write_guard_of(lock, *final(guard)),
{
    guard
}

/// `Drop` of `RwLockWriteGuard`: lets the lock go. The guard in the slot, if there is one, is given
/// up as it is, and the slot is empty.
#[verifier::external_body]
fn release(slot: &mut Option<RwLockWriteGuard<'_, RadixPrefixCache>>)
    ensures
        *final(slot) is None,
        *old(slot) matches Some(guard) ==> given_up(guard),
{
    *slot = None;
}

/// Calls `f`, and records that `f` gave what it gave: in a contract nothing else can stand for an
/// answer of the lock.
fn call<A, B>(f: impl FnOnce(A) -> B, argument: A) -> (r: B)
    requires
        call_requires(f, (argument,)),
    ensures
        call_ensures(f, (argument,), r),
{
    f(argument)
}

/// Why a call did nothing.
#[derive(Debug, Clone, Copy, PartialEq, Eq, Structural)]
pub enum Refusal {
    /// A thread panicked while it was changing the cache. What it left may not be a cache any
    /// more, and is not given out.
    Poisoned,
    /// The cache that was found does not allow it.
    NotPossible,
}

impl Refusal {
    /// The text of the message.
    pub open spec fn text(self) -> Seq<char> {
        match self {
            Refusal::Poisoned => "radix prefix cache rwlock poisoned"@,
            Refusal::NotPossible => "not possible in this radix prefix cache"@,
        }
    }

    /// The message.
    pub fn message(&self) -> (r: String)
        ensures
            r@ == self.text(),
    {
        match *self {
            Refusal::Poisoned => String::from_str("radix prefix cache rwlock poisoned"),
            Refusal::NotPossible => String::from_str("not possible in this radix prefix cache"),
        }
    }
}

/// Whether a call was refused because the lock was poisoned.
pub open spec fn poisoned<T>(r: Result<T, Refusal>) -> bool {
    r matches Err(e) && e is Poisoned
}

/// What a call on the cache gave, if it did something.
pub open spec fn outcome<T>(r: Result<T, Refusal>) -> Option<T> {
    match r {
        Ok(value) => Some(value),
        Err(_) => None,
    }
}

/// What a call gave is its outcome. One that was refused has none, and of the two reasons for that
/// only one is a poisoned lock.
pub proof fn law_outcomes<T>(r: Result<T, Refusal>)
    ensures
        match r {
            Ok(value) => !poisoned(r) && outcome(r) == Some(value),
            Err(Refusal::Poisoned) => poisoned(r) && outcome(r) is None,
            Err(Refusal::NotPossible) => !poisoned(r) && outcome(r) is None,
        },
{
}

/// Turns what could not be done into a refusal.
fn settle<T>(r: Result<Option<T>, Refusal>) -> (s: Result<T, Refusal>)
    ensures
        match r {
            Ok(Some(value)) => s == Ok::<T, Refusal>(value),
            Ok(None) => s == Err::<T, Refusal>(Refusal::NotPossible),
            Err(e) => s == Err::<T, Refusal>(e),
        },
{
    match r {
        Ok(Some(value)) => Ok(value),
        Ok(None) => Err(Refusal::NotPossible),
        Err(e) => Err(e),
    }
}

/// Turns what could not be done into a refusal.
fn settle_done(r: Result<bool, Refusal>) -> (s: Result<(), Refusal>)
    ensures
        match r {
            Ok(true) => s is Ok,
            Ok(false) => s == Err::<(), Refusal>(Refusal::NotPossible),
            Err(e) => s == Err::<(), Refusal>(e),
        },
{
    match r {
        Ok(true) => Ok(()),
        Ok(false) => Err(Refusal::NotPossible),
        Err(e) => Err(e),
    }
}

/// A cache that threads share.
pub type SharedRadixPrefixCache = Arc<ConcurrentRadixPrefixCache>;

/// A [`RadixPrefixCache`] behind a lock for many readers or one writer.
///
/// Lookups only read, and can run at the same time. All other operations take the lock to
/// write, [`ConcurrentRadixPrefixCache::match_prefix`] too: it marks nodes as used, and may
/// divide one.
///
/// Once a thread has panicked while it held the lock to write, every method refuses with
/// [`Refusal::Poisoned`]. No method may be called by a thread that holds a guard of the same
/// lock.
#[derive(Debug)]
pub struct ConcurrentRadixPrefixCache {
    inner: RwLock<RadixPrefixCache>,
}

impl ConcurrentRadixPrefixCache {
    /// The cache that the lock was made with.
    pub closed spec fn initial(&self) -> CacheModel {
        made_with(self.inner)
    }

    /// Whether a guard of the lock gave a reader access to cache `m`.
    pub closed spec fn shown(&self, m: CacheModel) -> bool {
        exists|g: RwLockReadGuard<'_, RadixPrefixCache>| #[trigger]
            read_guard_of(self.inner, g) && read_guarded(g) == m
    }

    /// Whether a guard of the lock gave a writer access to cache `was`, and was given up with
    /// `now`.
    pub closed spec fn turned(&self, was: CacheModel, now: CacheModel) -> bool {
        exists|h: RwLockWriteGuard<'_, RadixPrefixCache>| #[trigger]
            write_guard_of(self.inner, h) && found_by(h) == was && write_guarded(h) == now
                && given_up(h)
    }

    /// Whether the lock has answered a request to read with an error, as it does once a thread has
    /// panicked while it held the lock to write.
    pub closed spec fn refused_to_read(&self) -> bool {
        exists|e: PoisonError<RwLockReadGuard<'_, RadixPrefixCache>>|
            call_ensures(
                acquire_read,
                (&self.inner,),
                Err::<
                    RwLockReadGuard<'_, RadixPrefixCache>,
                    PoisonError<RwLockReadGuard<'_, RadixPrefixCache>>,
                >(e),
            )
    }

    /// Whether the lock has answered a request to write with an error, as it does once a thread
    /// has panicked while it held the lock to write.
    pub closed spec fn refused_to_write(&self) -> bool {
        exists|e: PoisonError<RwLockWriteGuard<'_, RadixPrefixCache>>|
            call_ensures(
                acquire_write,
                (&self.inner,),
                Err::<
                    RwLockWriteGuard<'_, RadixPrefixCache>,
                    PoisonError<RwLockWriteGuard<'_, RadixPrefixCache>>,
                >(e),
            )
    }

    /// Whether a reader has found `m`, which is a well-formed cache, under the lock.
    pub open spec fn read_as(&self, m: CacheModel) -> bool {
        &&& self.shown(m)
        &&& m.wf()
        &&& m.fits()
    }

    /// Whether a writer has found `was` under the lock, and has left `now` there at the end of the
    /// same turn. Both are well-formed caches. A contract sees turns one by one: that the next one
    /// finds what this one left is in the nature of the lock, and is not said here. Nor is it said
    /// that a call takes no further turn: behind a shared reference nothing changes that could be
    /// counted.
    pub open spec fn written(&self, was: CacheModel, now: CacheModel) -> bool {
        &&& self.turned(was, now)
        &&& was.wf()
        &&& was.fits()
        &&& now.wf()
        &&& now.fits()
    }

    /// Whether a read guard is one of this cache.
    pub closed spec fn gives_read(&self, guard: RwLockReadGuard<'_, RadixPrefixCache>) -> bool {
        read_guard_of(self.inner, guard)
    }

    /// Whether a write guard is one of this cache, through which nothing was changed yet.
    pub closed spec fn gives_write(&self, guard: RwLockWriteGuard<'_, RadixPrefixCache>) -> bool {
        write_guard_of(self.inner, guard) && found_by(guard) == write_guarded(guard)
    }

    /// An empty cache with pages of `page_size` tokens.
    pub fn new(page_size: usize) -> (r: Self)
        requires
            page_size > 0,
        ensures
            r.initial() == empty_cache(page_size as nat),
    {
        Self { inner: new_lock(RadixPrefixCache::new(page_size)) }
    }

    /// An empty cache that can be handed to other threads.
    pub fn shared(page_size: usize) -> (r: SharedRadixPrefixCache)
        requires
            page_size > 0,
        ensures
            r.initial() == empty_cache(page_size as nat),
    {
        Arc::new(Self::new(page_size))
    }

    /// Puts a lock around a cache.
    pub fn from_cache(cache: RadixPrefixCache) -> (r: Self)
        ensures
            r.initial() == cache@,
    {
        Self { inner: new_lock(cache) }
    }

    /// Takes the lock to write, for several steps that no other thread may come between.
    pub fn lock(&self) -> (r: Result<RwLockWriteGuard<'_, RadixPrefixCache>, Refusal>)
        ensures
            match r {
                Ok(guard) => self.gives_write(guard),
                Err(e) => e is Poisoned && self.refused_to_write(),
            },
    {
        self.write_lock()
    }

    /// Takes the lock to read.
    pub fn read_lock(&self) -> (r: Result<RwLockReadGuard<'_, RadixPrefixCache>, Refusal>)
        ensures
            match r {
                Ok(guard) => self.gives_read(guard),
                Err(e) => e is Poisoned && self.refused_to_read(),
            },
    {
        match call(acquire_read, &self.inner) {
            Ok(guard) => Ok(guard),
            Err(_) => Err(Refusal::Poisoned),
        }
    }

    /// Takes the lock to write.
    pub fn write_lock(&self) -> (r: Result<RwLockWriteGuard<'_, RadixPrefixCache>, Refusal>)
        ensures
            match r {
                Ok(guard) => self.gives_write(guard),
                Err(e) => e is Poisoned && self.refused_to_write(),
            },
    {
        match call(acquire_write, &self.inner) {
            Ok(guard) => Ok(guard),
            Err(_) => Err(Refusal::Poisoned),
        }
    }

    /// Runs `f` on the cache, with the lock taken to write.
    pub fn with_cache<R>(&self, f: impl FnOnce(&mut RadixPrefixCache) -> R) -> (r: Result<
        R,
        Refusal,
    >)
        requires
            forall|c: &mut RadixPrefixCache|
                c@.wf() && c@.fits() ==> #[trigger] call_requires(f, (c,)),
        ensures
            match r {
                Ok(out) => exists|c: &mut RadixPrefixCache| #[trigger]
                    call_ensures(f, (c,), out) && self.written(c@, final(c)@),
                Err(e) => e is Poisoned && self.refused_to_write(),
            },
    {
        self.with_write_cache(f)
    }

    /// Runs `f` on the cache, with the lock taken to read.
    pub fn with_read_cache<R>(&self, f: impl FnOnce(&RadixPrefixCache) -> R) -> (r: Result<
        R,
        Refusal,
    >)
        requires
            forall|c: &RadixPrefixCache|
                c@.wf() && c@.fits() ==> #[trigger] call_requires(f, (c,)),
        ensures
            match r {
                Ok(out) => exists|c: &RadixPrefixCache| #[trigger]
                    call_ensures(f, (c,), out) && self.read_as(c@),
                Err(e) => e is Poisoned && self.refused_to_read(),
            },
    {
        let guard = match self.read_lock() {
            Ok(guard) => guard,
            Err(e) => {
                return Err(e);
            },
        };
        let cache = read_through(&guard);
        cache.attest();
        let out = f(cache);
        assert(call_ensures(f, (cache,), out) && self.read_as(cache@));
        let r = Ok(out);
        assert(r->Ok_0 == out);
        r
    }

    /// Runs `f` on the cache, with the lock taken to write.
    pub fn with_write_cache<R>(&self, f: impl FnOnce(&mut RadixPrefixCache) -> R) -> (r: Result<
        R,
        Refusal,
    >)
        requires
            forall|c: &mut RadixPrefixCache|
                c@.wf() && c@.fits() ==> #[trigger] call_requires(f, (c,)),
        ensures
            match r {
                Ok(out) => exists|c: &mut RadixPrefixCache| #[trigger]
                    call_ensures(f, (c,), out) && self.written(c@, final(c)@),
                Err(e) => e is Poisoned && self.refused_to_write(),
            },
    {
        let mut guard = match self.write_lock() {
            Ok(guard) => guard,
            Err(e) => {
                return Err(e);
            },
        };
        let cache = write_through(&mut guard);
        cache.attest();
        let out = f(cache);
        write_through(&mut guard).attest();
        let ghost h = guard;
        assert(write_guard_of(self.inner, h));
        let mut slot = Some(guard);
        release(&mut slot);
        assert(given_up(h));
        assert(self.written(found_by(h), write_guarded(h)));
        let r = Ok(out);
        assert(r->Ok_0 == out);
        r
    }

    /// How many tokens make a page.
    pub fn page_size(&self) -> (r: Result<usize, Refusal>)
        ensures
            match r {
                Ok(size) => exists|m: CacheModel| #[trigger]
                    self.read_as(m) && size == m.page_size && size > 0,
                Err(e) => e is Poisoned && self.refused_to_read(),
            },
    {
        let f = |cache: &RadixPrefixCache| -> (r: usize)
            ensures
                r == cache@.page_size,
            { cache.page_size() };
        self.with_read_cache(f)
    }

    /// How many tokens the cache holds.
    pub fn size_info(&self) -> (r: Result<SizeInfo, Refusal>)
        ensures
            match r {
                Ok(sizes) => exists|m: CacheModel| #[trigger]
                    self.read_as(m) && sizes.evictable_size == m.evictable_size()
                        && sizes.protected_size == m.protected_size() && sizes.evictable_size
                        + sizes.protected_size == m.total_size(),
                Err(e) => e is Poisoned && self.refused_to_read(),
            },
    {
        let f = |cache: &RadixPrefixCache| -> (r: SizeInfo)
            ensures
                r.evictable_size == cache@.evictable_size(),
                r.protected_size == cache@.protected_size(),
                r.evictable_size + r.protected_size == cache@.total_size(),
            { cache.size_info() };
        self.with_read_cache(f)
    }

    /// Finds the longest cached prefix of `input_ids`, and changes nothing.
    pub fn lookup_prefix(&self, input_ids: &[Token]) -> (r: Result<MatchResult, Refusal>)
        ensures
            match r {
                Ok(found) => exists|m: CacheModel| #[trigger]
                    self.read_as(m) && is_lookup(m, input_ids@, found),
                Err(e) => e is Poisoned && self.refused_to_read(),
            },
    {
        let f = |cache: &RadixPrefixCache| -> (r: MatchResult)
            ensures
                is_lookup(cache@, input_ids@, r),
            { cache.lookup_prefix(input_ids) };
        self.with_read_cache(f)
    }

    /// Finds the cache indices of the longest cached prefix of `input_ids`, and changes nothing.
    pub fn lookup_indices(&self, input_ids: &[Token]) -> (r: Result<LookupResult, Refusal>)
        ensures
            match r {
                Ok(found) => exists|m: CacheModel| #[trigger]
                    self.read_as(m) && found.cached_len == m.matched_len(input_ids@)
                        && found.indices@ == m.indices_for(m.matched(input_ids@)),
                Err(e) => e is Poisoned && self.refused_to_read(),
            },
    {
        let f = |cache: &RadixPrefixCache| -> (r: LookupResult)
            ensures
                r.cached_len == cache@.matched_len(input_ids@),
                r.indices@ == cache@.indices_for(cache@.matched(input_ids@)),
            { cache.lookup_indices(input_ids) };
        self.with_read_cache(f)
    }

    /// Writes the cache indices of the longest cached prefix of `input_ids` to `output`, and
    /// gives how many there are.
    pub fn lookup_indices_into(&self, input_ids: &[Token], output: &mut Vec<Token>) -> (r: Result<
        usize,
        Refusal,
    >)
        ensures
            match r {
                Ok(len) => exists|m: CacheModel| #[trigger]
                    self.read_as(m) && len == m.matched_len(input_ids@) && final(output)@
                        == m.indices_for(m.matched(input_ids@)),
                Err(e) => e is Poisoned && self.refused_to_read() && final(output)@ == old(
                    output,
                )@,
            },
    {
        let guard = match self.read_lock() {
            Ok(guard) => guard,
            Err(e) => {
                return Err(e);
            },
        };
        let cache = read_through(&guard);
        cache.attest();
        assert(self.read_as(cache@));
        Ok(cache.lookup_indices_into(input_ids, output))
    }

    /// Finds the longest cached prefix of `input_ids`, marks the nodes on the way as used now, and
    /// divides a node that the match ends in. Does nothing if the clock has run out.
    pub fn match_prefix(&self, input_ids: &[Token]) -> (r: Result<MatchResult, Refusal>)
        ensures
            if poisoned(r) {
                self.refused_to_write()
            } else {
                exists|was: CacheModel, now: CacheModel| #[trigger]
                    self.written(was, now) && match_step(was, now, input_ids@, outcome(r))
            },
    {
        let f = |cache: &mut RadixPrefixCache| -> (r: Option<MatchResult>)
            ensures
                match_step(old(cache)@, final(cache)@, input_ids@, r),
            { cache.try_match_prefix(input_ids) };
        settle(self.with_write_cache(f))
    }

    /// Inserts the whole pages of `input_ids`, with a cache index for each token. Does nothing
    /// if there are not as many indices as tokens, or if the sizes or the clock would run out.
    pub fn insert_prefix(&self, input_ids: &[Token], indices: &[Token]) -> (r: Result<
        InsertResult,
        Refusal,
    >)
        ensures
            if poisoned(r) {
                self.refused_to_write()
            } else {
                exists|was: CacheModel, now: CacheModel| #[trigger]
                    self.written(was, now) && insert_step(
                        was,
                        now,
                        input_ids@,
                        indices@,
                        outcome(r),
                    )
            },
    {
        let f = |cache: &mut RadixPrefixCache| -> (r: Option<InsertResult>)
            ensures
                insert_step(old(cache)@, final(cache)@, input_ids@, indices@, r),
            { cache.try_insert_prefix(input_ids, indices) };
        settle(self.with_write_cache(f))
    }

    /// Locks the node of a handle, and all nodes above it, against eviction. Does nothing if the
    /// node has been evicted, or if a count of locks would run out.
    pub fn lock_handle(&self, handle: RadixCacheHandle) -> (r: Result<(), Refusal>)
        ensures
            if poisoned(r) {
                self.refused_to_write()
            } else {
                exists|was: CacheModel, now: CacheModel| #[trigger]
                    self.written(was, now) && lock_step(was, now, handle.id(), r is Ok)
            },
    {
        let f = |cache: &mut RadixPrefixCache| -> (r: bool)
            ensures
                lock_step(old(cache)@, final(cache)@, handle.id(), r),
            { cache.try_lock_handle(handle) };
        settle_done(self.with_write_cache(f))
    }

    /// Gives a lock back. Does nothing if there is none.
    pub fn unlock_handle(&self, handle: RadixCacheHandle) -> (r: Result<(), Refusal>)
        ensures
            if poisoned(r) {
                self.refused_to_write()
            } else {
                exists|was: CacheModel, now: CacheModel| #[trigger]
                    self.written(was, now) && unlock_step(was, now, handle.id(), r is Ok)
            },
    {
        let f = |cache: &mut RadixPrefixCache| -> (r: bool)
            ensures
                unlock_step(old(cache)@, final(cache)@, handle.id(), r),
            { cache.try_unlock_handle(handle) };
        settle_done(self.with_write_cache(f))
    }

    /// The cache indices of the tokens that a handle stands for, unless they have been evicted.
    pub fn get_matched_indices(&self, handle: RadixCacheHandle) -> (r: Result<Vec<Token>, Refusal>)
        ensures
            if poisoned(r) {
                self.refused_to_read()
            } else {
                exists|m: CacheModel| #[trigger]
                    self.read_as(m) && read_step(m, handle, outcome(r))
            },
    {
        let f = |cache: &RadixPrefixCache| -> (r: Option<Vec<Token>>)
            ensures
                read_step(cache@, handle, r),
            { cache.try_get_matched_indices(handle) };
        settle(self.with_read_cache(f))
    }

    /// Writes the cache indices of the tokens that a handle stands for to `output`, in place of
    /// what it held, unless they have been evicted.
    pub fn get_matched_indices_into(&self, handle: RadixCacheHandle, output: &mut Vec<Token>) -> (r:
        Result<(), Refusal>)
        ensures
            if poisoned(r) {
                self.refused_to_read()
            } else {
                exists|m: CacheModel| #[trigger]
                    self.read_as(m) && write_step(m, handle, old(output)@, final(output)@, r is Ok)
            },
            r is Err ==> final(output)@ == old(output)@,
    {
        let guard = match self.read_lock() {
            Ok(guard) => guard,
            Err(e) => {
                return Err(e);
            },
        };
        let cache = read_through(&guard);
        cache.attest();
        assert(self.read_as(cache@));
        let done = cache.try_get_matched_indices_into(handle, output);
        settle_done(Ok(done))
    }

    /// Evicts at least `size` tokens from unlocked leaves, the least recently used first, and
    /// gives the cache indices of what was evicted. Does nothing if there are not enough.
    pub fn evict(&self, size: usize) -> (r: Result<Vec<Token>, Refusal>)
        ensures
            if poisoned(r) {
                self.refused_to_write()
            } else {
                exists|was: CacheModel, now: CacheModel| #[trigger]
                    self.written(was, now) && evict_step(was, now, size as nat, outcome(r))
            },
    {
        let f = |cache: &mut RadixPrefixCache| -> (r: Option<Vec<Token>>)
            ensures
                evict_step(old(cache)@, final(cache)@, size as nat, r),
            { cache.try_evict(size) };
        settle(self.with_write_cache(f))
    }

    /// Empties the cache.
    pub fn reset(&self) -> (r: Result<(), Refusal>)
        ensures
            match r {
                Ok(_) => exists|was: CacheModel, now: CacheModel| #[trigger]
                    self.written(was, now) && now == empty_cache(was.page_size),
                Err(e) => e is Poisoned && self.refused_to_write(),
            },
    {
        let f = |cache: &mut RadixPrefixCache|
            ensures
                final(cache)@ == empty_cache(old(cache)@.page_size),
            { cache.reset() };
        self.with_write_cache(f)
    }

    /// Checks whether the cache is intact. There is nothing to find, unless a thread has panicked
    /// while it was changing the cache.
    pub fn check_integrity(&self) -> (r: Result<(), String>)
        ensures
            match r {
                Ok(_) => exists|m: CacheModel| #[trigger] self.read_as(m),
                Err(text) => text@ == Refusal::Poisoned.text() && self.refused_to_read(),
            },
    {
        let f = |cache: &RadixPrefixCache| -> (r: Result<(), String>)
            ensures
                r is Ok,
            { cache.check_integrity() };
        match self.with_read_cache(f) {
            Ok(found) => found,
            Err(e) => Err(e.message()),
        }
    }

    /// The nodes of the tree in the order of their ids: id, parent, key, value and reference
    /// count.
    pub fn debug_dump(&self) -> (r: Result<Vec<DumpRow>, Refusal>)
        ensures
            match r {
                Ok(rows) => exists|m: CacheModel| #[trigger]
                    self.read_as(m) && rows_view(rows@) == m.dump(),
                Err(e) => e is Poisoned && self.refused_to_read(),
            },
    {
        let f = |cache: &RadixPrefixCache| -> (r: Vec<DumpRow>)
            ensures
                rows_view(r@) == cache@.dump(),
            { cache.debug_dump() };
        self.with_read_cache(f)
    }
}

/// What a reader is shown, what a writer finds and leaves, and what is refused comes from the lock
/// of this very cache: from a guard that it gave, or from an error that it answered with. Only this
/// module can say so, since the lock is hidden elsewhere.
proof fn law_the_lock_decides(c: ConcurrentRadixPrefixCache, was: CacheModel, now: CacheModel)
    ensures
        c.initial() == made_with(c.inner),
        forall|g: RwLockReadGuard<'_, RadixPrefixCache>| #[trigger]
            c.gives_read(g) ==> read_guard_of(c.inner, g),
        forall|h: RwLockWriteGuard<'_, RadixPrefixCache>| #[trigger]
            c.gives_write(h) ==> write_guard_of(c.inner, h) && found_by(h) == write_guarded(h),
        c.read_as(was) ==> was.wf() && was.fits(),
        c.read_as(was) ==> exists|g: RwLockReadGuard<'_, RadixPrefixCache>| #[trigger]
            read_guard_of(c.inner, g) && read_guarded(g) == was,
        c.written(was, now) ==> was.wf() && was.fits() && now.wf() && now.fits(),
        c.written(was, now) ==> exists|h: RwLockWriteGuard<'_, RadixPrefixCache>| #[trigger]
            write_guard_of(c.inner, h) && found_by(h) == was && write_guarded(h) == now
                && given_up(h),
        c.refused_to_read() ==> exists|e: PoisonError<RwLockReadGuard<'_, RadixPrefixCache>>|
            call_ensures(
                acquire_read,
                (&c.inner,),
                Err::<
                    RwLockReadGuard<'_, RadixPrefixCache>,
                    PoisonError<RwLockReadGuard<'_, RadixPrefixCache>>,
                >(e),
            ),
        c.refused_to_write() ==> exists|e: PoisonError<RwLockWriteGuard<'_, RadixPrefixCache>>|
            call_ensures(
                acquire_write,
                (&c.inner,),
                Err::<
                    RwLockWriteGuard<'_, RadixPrefixCache>,
                    PoisonError<RwLockWriteGuard<'_, RadixPrefixCache>>,
                >(e),
            ),
{
}

} // verus!
