//! Edge cases of the cache for one thread.

use mini_rust_radix_tree::align::align_down;
use mini_rust_radix_tree::{RadixPrefixCache, SizeInfo};

#[test]
fn align_down_rounds_to_whole_pages() {
    assert_eq!(align_down(0, 4), 0);
    assert_eq!(align_down(3, 4), 0);
    assert_eq!(align_down(4, 4), 4);
    assert_eq!(align_down(7, 4), 4);
    assert_eq!(align_down(9, 1), 9);
}

#[test]
fn new_cache_has_only_the_root() {
    let cache = RadixPrefixCache::new(3);
    assert_eq!(cache.page_size(), 3);
    assert_eq!(cache.size_info(), SizeInfo { evictable_size: 0, protected_size: 0 });
    assert_eq!(cache.drainable_size(), 0);
    assert_eq!(cache.debug_dump(), vec![(0, None, vec![], vec![], 1)]);
    cache.check_integrity().unwrap();
}

#[test]
fn empty_input_ends_at_the_root() {
    let mut cache = RadixPrefixCache::new(2);
    let matched = cache.match_prefix(&[]);
    assert_eq!(matched.handle.cached_len, 0);
    assert_eq!(matched.handle.node_id(), 0);
    let inserted = cache.insert_prefix(&[], &[]);
    assert_eq!(inserted.cached_len, 0);
    assert_eq!(inserted.handle.cached_len, 0);
    assert_eq!(inserted.handle.node_id(), 0);
    assert_eq!(cache.debug_dump().len(), 1);
    let empty: Vec<i32> = vec![];
    assert_eq!(cache.get_matched_indices(matched.handle), empty);
    cache.lock_handle(matched.handle);
    cache.unlock_handle(matched.handle);
    assert_eq!(cache.debug_dump(), vec![(0, None, vec![], vec![], 1)]);
}

#[test]
fn less_than_a_page_is_neither_cached_nor_found() {
    let mut cache = RadixPrefixCache::new(4);
    let inserted = cache.insert_prefix(&[1, 2, 3], &[10, 11, 12]);
    assert_eq!(inserted.handle.cached_len, 0);
    assert_eq!(cache.size_info().total_size(), 0);

    cache.insert_prefix(&[1, 2, 3, 4], &[10, 11, 12, 13]);
    assert_eq!(cache.match_prefix(&[1, 2, 3]).handle.cached_len, 0);
    assert_eq!(cache.lookup_prefix(&[1, 2, 3]).handle.cached_len, 0);
    assert_eq!(cache.debug_dump().len(), 2);
    cache.check_integrity().unwrap();
}

#[test]
fn match_divides_at_a_page_boundary() {
    let mut cache = RadixPrefixCache::new(2);
    cache.insert_prefix(&[1, 2, 3, 4, 5, 6], &[10, 11, 12, 13, 14, 15]);

    // Three tokens agree, but only one page of them.
    let matched = cache.match_prefix(&[1, 2, 3, 9, 5, 6]);
    assert_eq!(matched.handle.cached_len, 2);
    assert_eq!(matched.handle.cached_len(), 2);
    assert_eq!(matched.handle.node_id(), 2);
    assert_eq!(
        cache.debug_dump(),
        vec![
            (0, None, vec![], vec![], 1),
            (1, Some(2), vec![3, 4, 5, 6], vec![12, 13, 14, 15], 0),
            (2, Some(0), vec![1, 2], vec![10, 11], 0),
        ]
    );
    cache.check_integrity().unwrap();
}

#[test]
fn insert_after_a_division_hangs_under_the_new_node() {
    let mut cache = RadixPrefixCache::new(1);
    let first = cache.insert_prefix(&[1, 2, 3, 4], &[10, 11, 12, 13]);
    assert_eq!(first.handle.node_id(), 1);

    let second = cache.insert_prefix(&[1, 2, 9], &[70, 71, 99]);
    assert_eq!(second.cached_len, 2);
    assert_eq!(second.handle.cached_len, 3);
    assert_eq!(second.handle.node_id(), 3);
    assert_eq!(
        cache.debug_dump(),
        vec![
            (0, None, vec![], vec![], 1),
            (1, Some(2), vec![3, 4], vec![12, 13], 0),
            (2, Some(0), vec![1, 2], vec![10, 11], 0),
            (3, Some(2), vec![9], vec![99], 0),
        ]
    );
    // What was cached keeps its indices.
    assert_eq!(cache.get_matched_indices(second.handle), vec![10, 11, 99]);
    assert_eq!(cache.get_matched_indices(first.handle), vec![10, 11, 12, 13]);
}

#[test]
fn lookup_handle_may_point_past_the_match() {
    let mut cache = RadixPrefixCache::new(1);
    cache.insert_prefix(&[1, 2, 3, 4], &[10, 11, 12, 13]);
    let found = cache.lookup_prefix(&[1, 2, 9]);
    assert_eq!(found.handle.cached_len, 2);
    assert_eq!(found.handle.node_id(), 1);
    assert_eq!(cache.get_matched_indices(found.handle), vec![10, 11]);
}

#[test]
fn a_handle_gives_no_more_than_there_is() {
    let mut cache = RadixPrefixCache::new(1);
    let mut handle = cache.insert_prefix(&[1, 2, 3], &[10, 11, 12]).handle;
    handle.cached_len = usize::MAX;
    assert_eq!(cache.get_matched_indices(handle), vec![10, 11, 12]);
    handle.cached_len = 1;
    assert_eq!(cache.get_matched_indices(handle), vec![10]);
}

#[test]
fn indices_replace_what_the_buffer_held() {
    let mut cache = RadixPrefixCache::new(1);
    let handle = cache.insert_prefix(&[1, 2, 3], &[10, 11, 12]).handle;
    let mut output = vec![-1, -2, -3, -4, -5];
    cache.get_matched_indices_into(handle, &mut output);
    assert_eq!(output, vec![10, 11, 12]);
    assert_eq!(cache.lookup_indices_into(&[7], &mut output), 0);
    let empty: Vec<i32> = vec![];
    assert_eq!(output, empty);
}

#[test]
fn many_children_are_told_apart() {
    let mut cache = RadixPrefixCache::new(2);
    for first in [5, -3, 9, 0, -8, 2, 7, 1] {
        for second in [4, -4, 0] {
            let inserted = cache.insert_prefix(&[first, second], &[first * 10, second * 10]);
            assert_eq!(inserted.cached_len, 0);
        }
    }
    for first in [5, -3, 9, 0, -8, 2, 7, 1] {
        for second in [4, -4, 0] {
            let found = cache.lookup_indices(&[first, second, 1, 1]);
            assert_eq!(found.cached_len, 2);
            assert_eq!(found.indices, vec![first * 10, second * 10]);
        }
        assert_eq!(cache.lookup_prefix(&[first, 3]).handle.cached_len, 0);
    }
    assert_eq!(cache.size_info().evictable_size, 48);
    cache.check_integrity().unwrap();
}

#[test]
fn a_division_keeps_locks() {
    let mut cache = RadixPrefixCache::new(1);
    let handle = cache.insert_prefix(&[1, 2, 3, 4], &[10, 11, 12, 13]).handle;
    cache.lock_handle(handle);
    cache.lock_handle(handle);
    cache.match_prefix(&[1, 2]);
    assert_eq!(
        cache.debug_dump(),
        vec![
            (0, None, vec![], vec![], 1),
            (1, Some(2), vec![3, 4], vec![12, 13], 2),
            (2, Some(0), vec![1, 2], vec![10, 11], 2),
        ]
    );
    assert_eq!(cache.size_info(), SizeInfo { evictable_size: 0, protected_size: 4 });
    cache.unlock_handle(handle);
    assert_eq!(cache.size_info(), SizeInfo { evictable_size: 0, protected_size: 4 });
    cache.unlock_handle(handle);
    assert_eq!(cache.size_info(), SizeInfo { evictable_size: 4, protected_size: 0 });
    cache.check_integrity().unwrap();
}

#[test]
fn evict_nothing_returns_nothing() {
    let mut cache = RadixPrefixCache::new(1);
    let empty: Vec<i32> = vec![];
    assert_eq!(cache.evict(0), empty);
    cache.insert_prefix(&[1], &[10]);
    assert_eq!(cache.evict(0), empty);
    assert_eq!(cache.size_info().evictable_size, 1);
}

#[test]
fn evicted_ids_are_not_used_again() {
    let mut cache = RadixPrefixCache::new(1);
    cache.insert_prefix(&[1, 2], &[10, 11]);
    assert_eq!(cache.evict(2), vec![10, 11]);
    let again = cache.insert_prefix(&[1, 2], &[20, 21]);
    assert_eq!(again.cached_len, 0);
    assert_eq!(again.handle.node_id(), 2);
    assert_eq!(
        cache.debug_dump(),
        vec![(0, None, vec![], vec![], 1), (2, Some(0), vec![1, 2], vec![20, 21], 0)]
    );
    cache.check_integrity().unwrap();
}

#[test]
fn a_clone_goes_its_own_way() {
    let mut cache = RadixPrefixCache::new(1);
    cache.insert_prefix(&[1, 2, 3], &[10, 11, 12]);
    let mut copy = cache.clone();
    assert_eq!(copy.debug_dump(), cache.debug_dump());
    copy.insert_prefix(&[1, 2, 4], &[0, 0, 14]);
    copy.check_integrity().unwrap();
    assert_eq!(cache.debug_dump().len(), 2);
    assert_eq!(copy.debug_dump().len(), 4);
    assert_eq!(cache.lookup_indices(&[1, 2, 4]).cached_len, 2);
    assert_eq!(copy.lookup_indices(&[1, 2, 4]).indices, vec![10, 11, 14]);
}

#[test]
fn results_can_be_cloned_and_compared() {
    let mut cache = RadixPrefixCache::new(1);
    let inserted = cache.insert_prefix(&[1, 2], &[10, 11]);
    assert_eq!(inserted.clone(), inserted);
    let matched = cache.match_prefix(&[1, 2]);
    assert_eq!(matched.clone(), matched);
    assert_eq!(matched.handle, inserted.handle);
    let found = cache.lookup_indices(&[1, 2]);
    assert_eq!(found.clone(), found);
    assert_ne!(found, cache.lookup_indices(&[1]));
}
