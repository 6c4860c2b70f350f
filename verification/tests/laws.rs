//! What holds of the cache as a whole, on examples.

use mini_rust_radix_tree::{RadixPrefixCache, SizeInfo};

#[test]
fn what_was_inserted_is_found() {
    let mut cache = RadixPrefixCache::new(2);
    cache.insert_prefix(&[1, 2, 3, 4], &[10, 11, 12, 13]);
    let inserted = cache.insert_prefix(&[1, 2, 7, 8, 9], &[90, 91, 27, 28, 29]);
    assert_eq!(inserted.cached_len, 2);
    assert_eq!(inserted.handle.cached_len, 4);

    let found = cache.lookup_indices(&[1, 2, 7, 8, 9]);
    assert_eq!(found.cached_len, 4);
    assert_eq!(found.indices, vec![10, 11, 27, 28]);
    assert_eq!(cache.get_matched_indices(inserted.handle), vec![10, 11, 27, 28]);
}

#[test]
fn insertion_keeps_what_was_cached() {
    let mut cache = RadixPrefixCache::new(1);
    cache.insert_prefix(&[1, 2, 3, 4], &[10, 11, 12, 13]);
    cache.insert_prefix(&[1, 5], &[50, 51]);
    cache.insert_prefix(&[1, 2, 3, 4, 6], &[0, 0, 0, 0, 16]);
    assert_eq!(cache.lookup_indices(&[1, 2, 3, 4]).indices, vec![10, 11, 12, 13]);
    assert_eq!(cache.lookup_indices(&[1, 5]).indices, vec![10, 51]);
    assert_eq!(cache.lookup_indices(&[1, 2, 3, 4, 6]).indices, vec![10, 11, 12, 13, 16]);
    assert_eq!(cache.lookup_indices(&[2]).cached_len, 0);
    cache.check_integrity().unwrap();
}

#[test]
fn a_second_insertion_adds_nothing() {
    let mut cache = RadixPrefixCache::new(1);
    let first = cache.insert_prefix(&[1, 2, 3], &[10, 11, 12]);
    let before = cache.debug_dump();
    let second = cache.insert_prefix(&[1, 2, 3], &[20, 21, 22]);
    assert_eq!(second.cached_len, 3);
    assert_eq!(second.handle, first.handle);
    assert_eq!(cache.debug_dump(), before);
    assert_eq!(cache.size_info().evictable_size, 3);
}

#[test]
fn a_match_changes_no_contents_and_no_sizes() {
    let mut cache = RadixPrefixCache::new(1);
    cache.insert_prefix(&[1, 2, 3, 4], &[10, 11, 12, 13]);
    let sizes = cache.size_info();
    let first = cache.match_prefix(&[1, 2, 9]);
    assert_eq!(cache.size_info(), sizes);
    assert_eq!(cache.lookup_indices(&[1, 2, 3, 4]).indices, vec![10, 11, 12, 13]);
    assert_eq!(cache.lookup_indices(&[1, 2, 9]).indices, vec![10, 11]);

    let before = cache.debug_dump();
    let second = cache.match_prefix(&[1, 2, 9]);
    assert_eq!(second, first);
    assert_eq!(cache.debug_dump(), before);
}

#[test]
fn a_match_reads_like_a_lookup() {
    let mut cache = RadixPrefixCache::new(2);
    cache.insert_prefix(&[1, 2, 3, 4, 5, 6], &[10, 11, 12, 13, 14, 15]);
    for query in [&[1, 2, 3, 4, 9][..], &[1, 2], &[1, 9], &[1, 2, 3, 4, 5, 6, 7, 8]] {
        let found = cache.lookup_indices(query);
        let matched = cache.match_prefix(query);
        assert_eq!(matched.handle.cached_len, found.cached_len);
        assert_eq!(cache.get_matched_indices(matched.handle), found.indices);
    }
}

#[test]
fn the_tail_makes_no_difference() {
    let mut cache = RadixPrefixCache::new(3);
    cache.insert_prefix(&[1, 2, 3, 4, 5, 6], &[10, 11, 12, 13, 14, 15]);
    assert_eq!(
        cache.lookup_prefix(&[1, 2, 3, 4, 5]),
        cache.lookup_prefix(&[1, 2, 3])
    );
    assert_eq!(cache.lookup_prefix(&[1, 2, 3, 4, 5]).handle.cached_len, 3);
}

#[test]
fn handles_outlive_divisions() {
    let mut cache = RadixPrefixCache::new(1);
    let handle = cache.insert_prefix(&[1, 2, 3, 4], &[10, 11, 12, 13]).handle;
    cache.match_prefix(&[1, 2, 3]);
    cache.match_prefix(&[1]);
    cache.insert_prefix(&[1, 2, 8], &[0, 0, 18]);
    assert_eq!(cache.get_matched_indices(handle), vec![10, 11, 12, 13]);
    cache.check_integrity().unwrap();
}

#[test]
fn a_lock_given_back_leaves_no_trace() {
    let mut cache = RadixPrefixCache::new(1);
    cache.insert_prefix(&[1, 2, 3], &[10, 11, 12]);
    let handle = cache.insert_prefix(&[1, 2, 4], &[0, 0, 14]).handle;
    let before = cache.debug_dump();
    cache.lock_handle(handle);
    assert_eq!(cache.size_info(), SizeInfo { evictable_size: 1, protected_size: 3 });
    cache.unlock_handle(handle);
    assert_eq!(cache.debug_dump(), before);
    assert_eq!(cache.size_info(), SizeInfo { evictable_size: 4, protected_size: 0 });
}

#[test]
fn locks_on_a_shared_way_add_up() {
    let mut cache = RadixPrefixCache::new(1);
    let a = cache.insert_prefix(&[1, 2, 3], &[10, 11, 12]).handle;
    let b = cache.insert_prefix(&[1, 2, 4], &[0, 0, 14]).handle;
    cache.lock_handle(a);
    cache.lock_handle(b);
    assert_eq!(cache.size_info(), SizeInfo { evictable_size: 0, protected_size: 4 });
    cache.unlock_handle(a);
    assert_eq!(cache.size_info(), SizeInfo { evictable_size: 1, protected_size: 3 });
    assert_eq!(cache.evict(1), vec![12]);
    cache.unlock_handle(b);
    assert_eq!(cache.size_info(), SizeInfo { evictable_size: 3, protected_size: 0 });
    cache.check_integrity().unwrap();
}

#[test]
fn all_that_is_evictable_can_be_evicted() {
    let mut cache = RadixPrefixCache::new(1);
    let kept = cache.insert_prefix(&[1, 2], &[10, 11]).handle;
    cache.insert_prefix(&[1, 2, 3], &[0, 0, 12]);
    cache.insert_prefix(&[1, 2, 4, 5], &[0, 0, 14, 15]);
    cache.insert_prefix(&[6, 7], &[16, 17]);
    cache.lock_handle(kept);
    let sizes = cache.size_info();
    assert_eq!(sizes, SizeInfo { evictable_size: 5, protected_size: 2 });
    assert_eq!(cache.drainable_size(), 5);

    let evicted = cache.evict(5);
    assert_eq!(evicted, vec![12, 14, 15, 16, 17]);
    assert_eq!(cache.size_info(), SizeInfo { evictable_size: 0, protected_size: 2 });
    assert_eq!(cache.get_matched_indices(kept), vec![10, 11]);
    assert_eq!(cache.lookup_prefix(&[1, 2, 3]).handle.cached_len, 2);
    cache.check_integrity().unwrap();
}

#[test]
fn the_least_recently_used_goes_first() {
    let mut cache = RadixPrefixCache::new(1);
    cache.insert_prefix(&[1, 2], &[10, 11]);
    cache.insert_prefix(&[3, 4], &[30, 31]);
    cache.insert_prefix(&[5, 6], &[50, 51]);
    cache.match_prefix(&[1, 2]);
    // A lookup is no use.
    cache.lookup_prefix(&[3, 4]);
    assert_eq!(cache.evict(1), vec![30, 31]);
    assert_eq!(cache.evict(1), vec![50, 51]);
    assert_eq!(cache.evict(1), vec![10, 11]);
    assert_eq!(cache.size_info().total_size(), 0);
}

#[test]
fn eviction_takes_nodes_whole_and_no_more_than_it_must() {
    let mut cache = RadixPrefixCache::new(1);
    cache.insert_prefix(&[1, 2, 3], &[10, 11, 12]);
    cache.insert_prefix(&[4, 5, 6], &[14, 15, 16]);
    assert_eq!(cache.evict(2), vec![10, 11, 12]);
    assert_eq!(cache.lookup_prefix(&[4, 5, 6]).handle.cached_len, 3);
    assert_eq!(cache.lookup_prefix(&[1, 2, 3]).handle.cached_len, 0);
}

#[test]
fn a_leaf_goes_before_what_is_above_it() {
    let mut cache = RadixPrefixCache::new(1);
    cache.insert_prefix(&[1, 2], &[10, 11]);
    cache.insert_prefix(&[1, 2, 3], &[0, 0, 12]);
    assert_eq!(cache.evict(2), vec![12, 10, 11]);
    assert_eq!(cache.debug_dump(), vec![(0, None, vec![], vec![], 1)]);
}

#[test]
fn the_rows_of_a_dump_add_up_to_the_sizes() {
    let mut cache = RadixPrefixCache::new(2);
    cache.insert_prefix(&[1, 2, 3, 4, 5], &[10, 11, 12, 13, 14]);
    let handle = cache.insert_prefix(&[1, 2, 7, 8], &[0, 0, 17, 18]).handle;
    cache.lock_handle(handle);
    let mut evictable = 0;
    let mut protected = 0;
    for (id, _, key, value, locks) in cache.debug_dump() {
        assert_eq!(key.len(), value.len());
        if id != 0 && locks == 0 {
            evictable += key.len();
        } else if id != 0 {
            protected += key.len();
        }
    }
    assert_eq!((evictable, protected), (2, 4));
    assert_eq!(cache.size_info(), SizeInfo { evictable_size: 2, protected_size: 4 });
}

#[test]
fn eviction_neither_loses_nor_doubles_an_index() {
    let mut cache = RadixPrefixCache::new(1);
    cache.insert_prefix(&[1, 2, 3], &[10, 11, 12]);
    cache.insert_prefix(&[1, 2, 4], &[0, 0, 14]);
    cache.insert_prefix(&[5, 6], &[15, 16]);
    let query = [1, 2, 3, 9];
    let found = cache.lookup_indices(&query);
    let mut all = cache.evict(2);
    let later = cache.lookup_indices(&query);
    assert_eq!(later.indices, found.indices[..later.cached_len].to_vec());
    for (_, _, _, value, _) in cache.debug_dump() {
        all.extend_from_slice(&value);
    }
    all.sort();
    assert_eq!(all, vec![10, 11, 12, 14, 15, 16]);
}
