//! The cache for one thread.

use mini_rust_radix_tree::{RadixPrefixCache, SizeInfo};

#[test]
fn tests_insert_and_match_full_prefix_page_size_one() {
    let mut cache = RadixPrefixCache::new(1);
    let inserted = cache.insert_prefix(&[1, 2, 3], &[10, 11, 12]);

    assert_eq!(inserted.cached_len, 0);
    assert_eq!(inserted.handle.cached_len, 3);
    assert_eq!(cache.size_info().evictable_size, 3);

    let matched = cache.match_prefix(&[1, 2, 3, 4]);
    assert_eq!(matched.handle.cached_len, 3);
    assert_eq!(cache.get_matched_indices(matched.handle), vec![10, 11, 12]);
    cache.check_integrity().unwrap();
}

#[test]
fn tests_insert_splits_partial_node_on_page_boundary() {
    let mut cache = RadixPrefixCache::new(1);
    cache.insert_prefix(&[1, 2, 3, 4], &[10, 11, 12, 13]);

    let matched = cache.match_prefix(&[1, 2, 9]);
    assert_eq!(matched.handle.cached_len, 2);
    assert_eq!(cache.get_matched_indices(matched.handle), vec![10, 11]);

    let inserted = cache.insert_prefix(&[1, 2, 9], &[10, 11, 99]);
    assert_eq!(inserted.cached_len, 2);

    let old_branch = cache.match_prefix(&[1, 2, 3, 4]);
    assert_eq!(old_branch.handle.cached_len, 4);
    assert_eq!(
        cache.get_matched_indices(old_branch.handle),
        vec![10, 11, 12, 13]
    );

    let new_branch = cache.match_prefix(&[1, 2, 9]);
    assert_eq!(new_branch.handle.cached_len, 3);
    assert_eq!(
        cache.get_matched_indices(new_branch.handle),
        vec![10, 11, 99]
    );
    cache.check_integrity().unwrap();
}

#[test]
fn tests_page_size_alignment_drops_tail() {
    let mut cache = RadixPrefixCache::new(4);
    let inserted = cache.insert_prefix(&[0, 1, 2, 3, 4, 5], &[100, 101, 102, 103, 104, 105]);

    assert_eq!(inserted.handle.cached_len, 4);
    assert_eq!(cache.size_info().evictable_size, 4);

    let matched = cache.match_prefix(&[0, 1, 2, 3, 99, 100]);
    assert_eq!(matched.handle.cached_len, 4);
    assert_eq!(
        cache.get_matched_indices(matched.handle),
        vec![100, 101, 102, 103]
    );
    cache.check_integrity().unwrap();
}

#[test]
fn lookup_prefix_is_read_only_and_does_not_split() {
    let mut cache = RadixPrefixCache::new(1);
    cache.insert_prefix(&[1, 2, 3, 4], &[10, 11, 12, 13]);
    let before = cache.debug_dump().len();

    let lookup = cache.lookup_indices(&[1, 2, 9]);
    assert_eq!(lookup.cached_len, 2);
    assert_eq!(lookup.indices, vec![10, 11]);
    assert_eq!(cache.debug_dump().len(), before);

    let matched = cache.match_prefix(&[1, 2, 9]);
    assert_eq!(matched.handle.cached_len, 2);
    assert!(cache.debug_dump().len() > before);
    cache.check_integrity().unwrap();
}

#[test]
fn lookup_prefix_matches_full_prefix_without_mutation() {
    let mut cache = RadixPrefixCache::new(4);
    cache.insert_prefix(
        &[0, 1, 2, 3, 4, 5, 6, 7],
        &[100, 101, 102, 103, 104, 105, 106, 107],
    );

    let lookup = cache.lookup_indices(&[0, 1, 2, 3, 4, 5, 6, 7, 99]);
    assert_eq!(lookup.cached_len, 8);
    assert_eq!(lookup.indices, vec![100, 101, 102, 103, 104, 105, 106, 107]);
    cache.check_integrity().unwrap();
}

#[test]
fn tests_lock_and_unlock_updates_size_info_along_path() {
    let mut cache = RadixPrefixCache::new(1);
    let handle = cache.insert_prefix(&[1, 2, 3], &[10, 11, 12]).handle;

    cache.lock_handle(handle);
    assert_eq!(
        cache.size_info(),
        SizeInfo {
            evictable_size: 0,
            protected_size: 3
        }
    );

    cache.unlock_handle(handle);
    assert_eq!(
        cache.size_info(),
        SizeInfo {
            evictable_size: 3,
            protected_size: 0
        }
    );
    cache.check_integrity().unwrap();
}

#[test]
fn tests_evict_oldest_unprotected_leaf() {
    let mut cache = RadixPrefixCache::new(1);
    cache.insert_prefix(&[1, 2], &[10, 11]);
    cache.insert_prefix(&[3, 4], &[30, 31]);

    let evicted = cache.evict(1);
    assert_eq!(evicted, vec![10, 11]);
    assert_eq!(cache.size_info().evictable_size, 2);

    assert_eq!(cache.match_prefix(&[1, 2]).handle.cached_len, 0);
    assert_eq!(cache.match_prefix(&[3, 4]).handle.cached_len, 2);
    cache.check_integrity().unwrap();
}

#[test]
fn tests_evict_promotes_unlocked_parent_after_leaf_removed() {
    let mut cache = RadixPrefixCache::new(1);
    cache.insert_prefix(&[1, 2, 3], &[10, 11, 12]);
    cache.insert_prefix(&[1, 2, 4], &[10, 11, 14]);

    assert_eq!(cache.match_prefix(&[1, 2]).handle.cached_len, 2);
    let evicted = cache.evict(3);

    assert_eq!(evicted.len(), 4);
    assert_eq!(cache.size_info().evictable_size, 0);
    assert_eq!(cache.match_prefix(&[1, 2, 3]).handle.cached_len, 0);
    cache.check_integrity().unwrap();
}

#[test]
fn tests_locked_handle_cannot_be_evicted() {
    let mut cache = RadixPrefixCache::new(1);
    let locked = cache.insert_prefix(&[1, 2], &[10, 11]).handle;
    cache.insert_prefix(&[3, 4], &[30, 31]);
    cache.lock_handle(locked);

    let evicted = cache.evict(2);
    assert_eq!(evicted, vec![30, 31]);

    assert_eq!(cache.match_prefix(&[1, 2]).handle.cached_len, 2);
    cache.unlock_handle(locked);
    cache.check_integrity().unwrap();
}

#[test]
fn tests_reset_clears_cache() {
    let mut cache = RadixPrefixCache::new(2);
    cache.insert_prefix(&[1, 2, 3, 4], &[10, 11, 12, 13]);
    cache.reset();

    assert_eq!(cache.size_info().total_size(), 0);
    assert_eq!(cache.match_prefix(&[1, 2]).handle.cached_len, 0);
    cache.check_integrity().unwrap();
}

#[test]
fn lookup_indices_into_reuses_output_buffer() {
    let mut cache = RadixPrefixCache::new(1);
    cache.insert_prefix(&[1, 2, 3, 4], &[10, 11, 12, 13]);

    let mut output = Vec::with_capacity(16);
    output.extend_from_slice(&[-1, -2, -3]);
    let original_capacity = output.capacity();

    let cached_len = cache.lookup_indices_into(&[1, 2, 3, 4, 5], &mut output);

    assert_eq!(cached_len, 4);
    assert_eq!(output, vec![10, 11, 12, 13]);
    assert_eq!(output.capacity(), original_capacity);
}

#[test]
fn lib_insert_and_match_full_prefix_page_size_one() {
    let mut cache = RadixPrefixCache::new(1);
    let inserted = cache.insert_prefix(&[1, 2, 3], &[10, 11, 12]);

    assert_eq!(inserted.cached_len, 0);
    assert_eq!(inserted.handle.cached_len, 3);
    assert_eq!(cache.size_info().evictable_size, 3);

    let matched = cache.match_prefix(&[1, 2, 3, 4]);
    assert_eq!(matched.handle.cached_len, 3);
    assert_eq!(cache.get_matched_indices(matched.handle), vec![10, 11, 12]);
    cache.check_integrity().unwrap();
}

#[test]
fn lib_insert_splits_partial_node_on_page_boundary() {
    let mut cache = RadixPrefixCache::new(1);
    cache.insert_prefix(&[1, 2, 3, 4], &[10, 11, 12, 13]);

    let matched = cache.match_prefix(&[1, 2, 9]);
    assert_eq!(matched.handle.cached_len, 2);
    assert_eq!(cache.get_matched_indices(matched.handle), vec![10, 11]);

    let inserted = cache.insert_prefix(&[1, 2, 9], &[10, 11, 99]);
    assert_eq!(inserted.cached_len, 2);

    let old_branch = cache.match_prefix(&[1, 2, 3, 4]);
    assert_eq!(old_branch.handle.cached_len, 4);
    assert_eq!(
        cache.get_matched_indices(old_branch.handle),
        vec![10, 11, 12, 13]
    );

    let new_branch = cache.match_prefix(&[1, 2, 9]);
    assert_eq!(new_branch.handle.cached_len, 3);
    assert_eq!(
        cache.get_matched_indices(new_branch.handle),
        vec![10, 11, 99]
    );
    cache.check_integrity().unwrap();
}

#[test]
fn lib_page_size_alignment_drops_tail() {
    let mut cache = RadixPrefixCache::new(4);
    let inserted = cache.insert_prefix(&[0, 1, 2, 3, 4, 5], &[100, 101, 102, 103, 104, 105]);

    assert_eq!(inserted.handle.cached_len, 4);
    assert_eq!(cache.size_info().evictable_size, 4);

    let matched = cache.match_prefix(&[0, 1, 2, 3, 99, 100]);
    assert_eq!(matched.handle.cached_len, 4);
    assert_eq!(
        cache.get_matched_indices(matched.handle),
        vec![100, 101, 102, 103]
    );
    cache.check_integrity().unwrap();
}

#[test]
fn lib_lock_and_unlock_updates_size_info_along_path() {
    let mut cache = RadixPrefixCache::new(1);
    let handle = cache.insert_prefix(&[1, 2, 3], &[10, 11, 12]).handle;

    cache.lock_handle(handle);
    assert_eq!(
        cache.size_info(),
        SizeInfo {
            evictable_size: 0,
            protected_size: 3
        }
    );

    cache.unlock_handle(handle);
    assert_eq!(
        cache.size_info(),
        SizeInfo {
            evictable_size: 3,
            protected_size: 0
        }
    );
    cache.check_integrity().unwrap();
}

#[test]
fn lib_evict_oldest_unprotected_leaf() {
    let mut cache = RadixPrefixCache::new(1);
    cache.insert_prefix(&[1, 2], &[10, 11]);
    cache.insert_prefix(&[3, 4], &[30, 31]);

    let evicted = cache.evict(1);
    assert_eq!(evicted, vec![10, 11]);
    assert_eq!(cache.size_info().evictable_size, 2);

    assert_eq!(cache.match_prefix(&[1, 2]).handle.cached_len, 0);
    assert_eq!(cache.match_prefix(&[3, 4]).handle.cached_len, 2);
    cache.check_integrity().unwrap();
}

#[test]
fn lib_evict_promotes_unlocked_parent_after_leaf_removed() {
    let mut cache = RadixPrefixCache::new(1);
    cache.insert_prefix(&[1, 2, 3], &[10, 11, 12]);
    cache.insert_prefix(&[1, 2, 4], &[10, 11, 14]);

    assert_eq!(cache.match_prefix(&[1, 2]).handle.cached_len, 2);
    let evicted = cache.evict(3);

    assert_eq!(evicted.len(), 4);
    assert_eq!(cache.size_info().evictable_size, 0);
    assert_eq!(cache.match_prefix(&[1, 2, 3]).handle.cached_len, 0);
    cache.check_integrity().unwrap();
}

#[test]
fn lib_locked_handle_cannot_be_evicted() {
    let mut cache = RadixPrefixCache::new(1);
    let locked = cache.insert_prefix(&[1, 2], &[10, 11]).handle;
    cache.insert_prefix(&[3, 4], &[30, 31]);
    cache.lock_handle(locked);

    let evicted = cache.evict(2);
    assert_eq!(evicted, vec![30, 31]);

    assert_eq!(cache.match_prefix(&[1, 2]).handle.cached_len, 2);
    cache.unlock_handle(locked);
    cache.check_integrity().unwrap();
}

#[test]
fn lib_reset_clears_cache() {
    let mut cache = RadixPrefixCache::new(2);
    cache.insert_prefix(&[1, 2, 3, 4], &[10, 11, 12, 13]);
    cache.reset();

    assert_eq!(cache.size_info().total_size(), 0);
    assert_eq!(cache.match_prefix(&[1, 2]).handle.cached_len, 0);
    cache.check_integrity().unwrap();
}
