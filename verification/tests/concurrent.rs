//! The cache for many threads.

use mini_rust_radix_tree::{
    ConcurrentRadixPrefixCache, RadixPrefixCache, Refusal, SharedRadixPrefixCache, SizeInfo,
};

fn assert_send_sync<T: Send + Sync>() {}

#[test]
fn tests_concurrent_wrapper_is_send_and_sync() {
    assert_send_sync::<ConcurrentRadixPrefixCache>();
    assert_send_sync::<SharedRadixPrefixCache>();
}

#[test]
fn concurrent_wrapper_lookup_indices_into_reuses_output_buffer() {
    let cache = ConcurrentRadixPrefixCache::shared(1);
    cache.insert_prefix(&[1, 2, 3], &[10, 11, 12]).unwrap();

    let mut output = Vec::with_capacity(8);
    let original_capacity = output.capacity();
    let cached_len = cache.lookup_indices_into(&[1, 2, 3, 4], &mut output).unwrap();

    assert_eq!(cached_len, 3);
    assert_eq!(output, vec![10, 11, 12]);
    assert_eq!(output.capacity(), original_capacity);
}

#[test]
fn tests_concurrent_wrapper_supports_atomic_multi_step_with_guard() {
    let cache = ConcurrentRadixPrefixCache::shared(1);
    cache.insert_prefix(&[1, 2, 3], &[10, 11, 12]).unwrap();

    let indices = cache.with_cache(|cache| {
        let matched = cache.match_prefix(&[1, 2, 3, 4]);
        cache.lock_handle(matched.handle);
        let indices = cache.get_matched_indices(matched.handle);
        cache.unlock_handle(matched.handle);
        indices
    }).unwrap();

    assert_eq!(indices, vec![10, 11, 12]);
    assert_eq!(cache.size_info().unwrap().evictable_size, 3);
    cache.check_integrity().unwrap();
}

#[test]
fn lib_concurrent_wrapper_is_send_and_sync() {
    assert_send_sync::<ConcurrentRadixPrefixCache>();
    assert_send_sync::<SharedRadixPrefixCache>();
}

#[test]
fn lib_concurrent_wrapper_supports_atomic_multi_step_with_guard() {
    let cache = ConcurrentRadixPrefixCache::shared(1);
    cache.insert_prefix(&[1, 2, 3], &[10, 11, 12]).unwrap();

    let indices = cache.with_cache(|cache| {
        let matched = cache.match_prefix(&[1, 2, 3, 4]);
        cache.lock_handle(matched.handle);
        let indices = cache.get_matched_indices(matched.handle);
        cache.unlock_handle(matched.handle);
        indices
    }).unwrap();

    assert_eq!(indices, vec![10, 11, 12]);
    assert_eq!(cache.size_info().unwrap().evictable_size, 3);
    cache.check_integrity().unwrap();
}

#[test]
fn operations_reach_the_cache_behind_the_lock() {
    let cache = ConcurrentRadixPrefixCache::new(2);
    assert_eq!(cache.page_size(), Ok(2));
    let inserted = cache.insert_prefix(&[1, 2, 3, 4], &[10, 11, 12, 13]).unwrap();
    assert_eq!(inserted.cached_len, 0);
    assert_eq!(inserted.handle.cached_len, 4);

    let found = cache.lookup_indices(&[1, 2, 9, 9]).unwrap();
    assert_eq!(found.cached_len, 2);
    assert_eq!(found.indices, vec![10, 11]);
    assert_eq!(cache.lookup_prefix(&[1, 2, 9, 9]).unwrap().handle.cached_len, 2);
    assert_eq!(cache.debug_dump().unwrap().len(), 2);

    let matched = cache.match_prefix(&[1, 2, 9, 9]).unwrap();
    assert_eq!(matched.handle.cached_len, 2);
    assert_eq!(cache.debug_dump().unwrap().len(), 3);
    assert_eq!(cache.lock_handle(matched.handle), Ok(()));
    assert_eq!(cache.size_info(), Ok(SizeInfo { evictable_size: 2, protected_size: 2 }));

    assert_eq!(cache.get_matched_indices(inserted.handle), Ok(vec![10, 11, 12, 13]));
    let mut output = vec![];
    assert_eq!(cache.get_matched_indices_into(matched.handle, &mut output), Ok(()));
    assert_eq!(output, vec![10, 11]);

    assert_eq!(cache.evict(2), Ok(vec![12, 13]));
    assert_eq!(cache.unlock_handle(matched.handle), Ok(()));
    assert_eq!(cache.size_info(), Ok(SizeInfo { evictable_size: 2, protected_size: 0 }));
    cache.check_integrity().unwrap();
    assert_eq!(cache.reset(), Ok(()));
    assert_eq!(cache.size_info().unwrap().total_size(), 0);
    assert_eq!(cache.page_size(), Ok(2));
}

#[test]
fn what_is_not_possible_is_refused() {
    let cache = ConcurrentRadixPrefixCache::new(1);
    assert_eq!(cache.insert_prefix(&[1, 2], &[10]), Err(Refusal::NotPossible));
    let handle = cache.insert_prefix(&[1, 2], &[10, 11]).unwrap().handle;
    assert_eq!(cache.unlock_handle(handle), Err(Refusal::NotPossible));
    assert_eq!(cache.evict(3), Err(Refusal::NotPossible));
    assert_eq!(cache.evict(1), Ok(vec![10, 11]));
    assert_eq!(cache.lock_handle(handle), Err(Refusal::NotPossible));
    assert_eq!(cache.get_matched_indices(handle), Err(Refusal::NotPossible));
    let mut output = vec![7];
    assert_eq!(
        cache.get_matched_indices_into(handle, &mut output),
        Err(Refusal::NotPossible)
    );
    assert_eq!(output, vec![7]);
    cache.check_integrity().unwrap();
}

#[test]
fn refusals_have_messages() {
    assert_eq!(Refusal::Poisoned.message(), "radix prefix cache rwlock poisoned");
    assert_eq!(Refusal::NotPossible.message(), "not possible in this radix prefix cache");
}

#[test]
fn a_cache_keeps_its_contents_behind_a_lock() {
    let mut single = RadixPrefixCache::new(1);
    single.insert_prefix(&[1, 2, 3], &[10, 11, 12]);
    let cache = ConcurrentRadixPrefixCache::from_cache(single);
    assert_eq!(cache.lookup_indices(&[1, 2, 3]).unwrap().indices, vec![10, 11, 12]);
}

#[test]
fn a_cache_answers_behind_a_lock_as_it_does_without() {
    let mut single = RadixPrefixCache::new(2);
    single.insert_prefix(&[1, 2, 3, 4], &[10, 11, 12, 13]);
    let handle = single.insert_prefix(&[5, 6], &[15, 16]).handle;
    let cache = ConcurrentRadixPrefixCache::from_cache(single.clone());

    assert_eq!(cache.lookup_prefix(&[1, 2, 9, 9]), Ok(single.lookup_prefix(&[1, 2, 9, 9])));
    assert_eq!(cache.match_prefix(&[1, 2, 9, 9]), Ok(single.match_prefix(&[1, 2, 9, 9])));
    assert_eq!(
        cache.insert_prefix(&[1, 2, 7, 8], &[0, 0, 17, 18]),
        Ok(single.insert_prefix(&[1, 2, 7, 8], &[0, 0, 17, 18]))
    );
    assert_eq!(cache.lock_handle(handle), Ok(()));
    single.lock_handle(handle);
    assert_eq!(cache.size_info(), Ok(single.size_info()));
    assert_eq!(cache.evict(3), Ok(single.evict(3)));
    assert_eq!(cache.debug_dump(), Ok(single.debug_dump()));
    assert_eq!(cache.get_matched_indices(handle), Ok(single.get_matched_indices(handle)));
    assert_eq!(cache.lookup_indices(&[1, 2, 7, 8]), Ok(single.lookup_indices(&[1, 2, 7, 8])));
}

#[test]
fn guards_give_access_to_the_cache() {
    let cache = ConcurrentRadixPrefixCache::new(1);
    {
        let mut guard = cache.lock().unwrap();
        let inserted = guard.insert_prefix(&[1, 2, 3], &[10, 11, 12]);
        guard.lock_handle(inserted.handle);
    }
    {
        let first = cache.read_lock().unwrap();
        let second = cache.read_lock().unwrap();
        assert_eq!(first.lookup_indices(&[1, 2]).indices, vec![10, 11]);
        assert_eq!(second.size_info(), SizeInfo { evictable_size: 0, protected_size: 3 });
    }
    cache.write_lock().unwrap().reset();
    assert_eq!(cache.size_info().unwrap().total_size(), 0);
}

#[test]
fn closures_run_on_the_cache() {
    let cache = ConcurrentRadixPrefixCache::shared(1);
    let inserted = cache
        .with_write_cache(|cache| cache.insert_prefix(&[4, 5, 6], &[40, 41, 42]))
        .unwrap();
    assert_eq!(inserted.handle.cached_len, 3);
    let found = cache.with_read_cache(|cache| cache.lookup_indices(&[4, 5, 7])).unwrap();
    assert_eq!(found.indices, vec![40, 41]);
}

#[test]
fn many_insertions_are_all_found() {
    let cache = ConcurrentRadixPrefixCache::shared(1);
    // The turns of eight workers, dealt out one by one.
    for local_id in 0..128 {
        for worker_id in 0..8 {
            let base = worker_id * 10_000 + local_id * 4;
            let input_ids = vec![base, base + 1, base + 2, base + 3];
            let indices = vec![base * 10, base * 10 + 1, base * 10 + 2, base * 10 + 3];
            cache.insert_prefix(&input_ids, &indices).unwrap();
        }
    }
    assert_eq!(cache.size_info().unwrap().total_size(), 8 * 128 * 4);
    cache.check_integrity().unwrap();

    let matched = cache.match_prefix(&[20_000, 20_001, 20_002, 20_003, 42]).unwrap();
    assert_eq!(matched.handle.cached_len, 4);
    assert_eq!(
        cache.get_matched_indices(matched.handle),
        Ok(vec![200_000, 200_001, 200_002, 200_003])
    );
}

#[test]
fn lookups_agree_and_change_nothing() {
    let cache = ConcurrentRadixPrefixCache::shared(1);
    for prefix_id in 0..128 {
        let base = prefix_id * 16;
        let input_ids: Vec<i32> = (base..base + 16).collect();
        let indices: Vec<i32> = (base * 10..base * 10 + 16).collect();
        cache.insert_prefix(&input_ids, &indices).unwrap();
    }
    let before = cache.debug_dump().unwrap();
    for round in 0..512 {
        let base = (round * 17) % 128 * 16;
        let mut query: Vec<i32> = (base..base + 16).collect();
        query.push(-1);
        let found = cache.lookup_indices(&query).unwrap();
        assert_eq!(found.cached_len, 16);
        assert_eq!(found.indices, (base * 10..base * 10 + 16).collect::<Vec<i32>>());
    }
    assert_eq!(cache.debug_dump().unwrap(), before);
    cache.check_integrity().unwrap();
}

#[test]
fn a_locked_prefix_outlives_the_work_of_others() {
    let cache = ConcurrentRadixPrefixCache::shared(1);
    let mine = cache.insert_prefix(&[1, 2, 3, 4], &[10, 11, 12, 13]).unwrap().handle;
    cache.lock_handle(mine).unwrap();
    for round in 0..64 {
        let base = 100 + round * 4;
        let theirs = cache
            .insert_prefix(&[1, 2, base, base + 1], &[0, 0, base, base])
            .unwrap()
            .handle;
        cache.lock_handle(theirs).unwrap();
        cache.match_prefix(&[1, 2, 3, 9]).unwrap();
        cache.unlock_handle(theirs).unwrap();
        let evictable = cache.size_info().unwrap().evictable_size;
        cache.evict(evictable).unwrap();
        assert_eq!(cache.lookup_indices(&[1, 2, 3, 4]).unwrap().indices, vec![10, 11, 12, 13]);
        assert_eq!(cache.get_matched_indices(mine), Ok(vec![10, 11, 12, 13]));
    }
    cache.unlock_handle(mine).unwrap();
    assert_eq!(cache.size_info(), Ok(SizeInfo { evictable_size: 4, protected_size: 0 }));
    cache.check_integrity().unwrap();
}
