//! Operations that are refused, and the messages of the check.

use mini_rust_radix_tree::text::push_decimal;
use mini_rust_radix_tree::{IntegrityError, RadixPrefixCache, SizeInfo};

#[test]
fn a_possible_operation_is_carried_out() {
    let mut cache = RadixPrefixCache::new(1);
    let inserted = cache.try_insert_prefix(&[1, 2, 3], &[10, 11, 12]).unwrap();
    assert_eq!(inserted.cached_len, 0);
    assert_eq!(inserted.handle.cached_len, 3);
    let matched = cache.try_match_prefix(&[1, 2, 9]).unwrap();
    assert_eq!(matched.handle.cached_len, 2);
    assert!(cache.try_lock_handle(matched.handle));
    assert_eq!(cache.size_info(), SizeInfo { evictable_size: 1, protected_size: 2 });
    assert_eq!(cache.try_get_matched_indices(inserted.handle), Some(vec![10, 11, 12]));
    let mut output = vec![7];
    assert!(cache.try_get_matched_indices_into(matched.handle, &mut output));
    assert_eq!(output, vec![10, 11]);
    assert_eq!(cache.try_evict(1), Some(vec![12]));
    assert!(cache.try_unlock_handle(matched.handle));
    assert_eq!(cache.size_info(), SizeInfo { evictable_size: 2, protected_size: 0 });
    cache.check_integrity().unwrap();
}

#[test]
fn an_insertion_needs_one_index_for_each_token() {
    let mut cache = RadixPrefixCache::new(1);
    assert_eq!(cache.try_insert_prefix(&[1, 2, 3], &[10, 11]), None);
    assert_eq!(cache.try_insert_prefix(&[1], &[10, 11]), None);
    assert_eq!(cache.debug_dump().len(), 1);
}

#[test]
fn an_evicted_handle_is_refused() {
    let mut cache = RadixPrefixCache::new(1);
    let mut handle = cache.insert_prefix(&[1, 2], &[10, 11]).handle;
    cache.evict(1);
    assert!(!cache.try_lock_handle(handle));
    assert!(!cache.try_unlock_handle(handle));
    assert_eq!(cache.try_get_matched_indices(handle), None);
    let mut output = vec![7];
    assert!(!cache.try_get_matched_indices_into(handle, &mut output));
    assert_eq!(output, vec![7]);
    handle.cached_len = 0;
    assert_eq!(cache.try_get_matched_indices(handle), Some(vec![]));
    cache.check_integrity().unwrap();
}

#[test]
fn a_handle_is_readable_as_far_as_its_nodes_are_left() {
    let mut cache = RadixPrefixCache::new(1);
    cache.insert_prefix(&[1, 2], &[10, 11]);
    let mut handle = cache.insert_prefix(&[1, 2, 3], &[0, 0, 12]).handle;
    assert_eq!(cache.evict(1), vec![12]);
    assert_eq!(cache.try_get_matched_indices(handle), None);
    handle.cached_len = 2;
    assert_eq!(cache.try_get_matched_indices(handle), Some(vec![10, 11]));
}

#[test]
fn a_handle_of_another_cache_is_refused() {
    let mut full = RadixPrefixCache::new(1);
    let handle = full.insert_prefix(&[1, 2], &[10, 11]).handle;
    let mut other = RadixPrefixCache::new(1);
    assert!(!other.try_lock_handle(handle));
    assert!(!other.try_unlock_handle(handle));
    assert_eq!(other.try_get_matched_indices(handle), None);
    full.reset();
    assert!(!full.try_lock_handle(handle));
}

#[test]
fn a_lock_that_was_not_taken_cannot_be_returned() {
    let mut cache = RadixPrefixCache::new(1);
    let handle = cache.insert_prefix(&[1, 2], &[10, 11]).handle;
    assert!(!cache.try_unlock_handle(handle));
    cache.lock_handle(handle);
    assert!(cache.try_unlock_handle(handle));
    assert!(!cache.try_unlock_handle(handle));
    assert_eq!(cache.size_info(), SizeInfo { evictable_size: 2, protected_size: 0 });
}

#[test]
fn no_more_can_be_evicted_than_is_evictable() {
    let mut cache = RadixPrefixCache::new(1);
    let handle = cache.insert_prefix(&[1, 2], &[10, 11]).handle;
    assert_eq!(cache.try_evict(3), None);
    cache.lock_handle(handle);
    assert_eq!(cache.try_evict(1), None);
    assert_eq!(cache.size_info(), SizeInfo { evictable_size: 0, protected_size: 2 });
}

#[test]
fn what_stands_above_a_lock_cannot_be_evicted() {
    let mut cache = RadixPrefixCache::new(1);
    let below = cache.insert_prefix(&[1, 2, 3], &[10, 11, 12]).handle;
    cache.insert_prefix(&[1, 2, 4], &[0, 0, 14]);
    let above = cache.match_prefix(&[1, 2]).handle;
    cache.lock_handle(below);
    // Not the lock that was taken.
    cache.unlock_handle(above);
    assert_eq!(cache.size_info(), SizeInfo { evictable_size: 3, protected_size: 1 });
    assert_eq!(cache.drainable_size(), 1);
    assert_eq!(cache.try_evict(2), None);
    assert_eq!(cache.try_evict(1), Some(vec![14]));
    assert_eq!(cache.lookup_indices(&[1, 2, 3]).indices, vec![10, 11, 12]);
    cache.check_integrity().unwrap();
}

#[test]
fn messages_name_what_is_wrong() {
    assert_eq!(IntegrityError::Root.message(), "root must have no parent and ref_count=1");
    assert_eq!(
        IntegrityError::Duplicate(12).message(),
        "cycle or duplicate child reference at node 12"
    );
    assert_eq!(IntegrityError::Dead(7).message(), "reachable node 7 is marked dead");
    assert_eq!(IntegrityError::Length(10).message(), "invalid key/value length at node 10");
    assert_eq!(IntegrityError::Alignment(3).message(), "node 3 length is not page aligned");
    assert_eq!(IntegrityError::Parent(42).message(), "child 42 parent mismatch");
    assert_eq!(IntegrityError::ChildKey(105).message(), "child map key mismatch for child 105");
    let sizes = IntegrityError::Sizes {
        evictable: 1,
        protected: 20,
        stored_evictable: 300,
        stored_protected: 0,
    };
    assert_eq!(
        sizes.message(),
        "size mismatch: computed evictable/protected=(1,20), stored=(300,0)"
    );
}

#[test]
fn numbers_are_written_in_decimal() {
    for n in [0usize, 9, 10, 99, 100, 1234567890, usize::MAX] {
        let mut text = String::from("n=");
        push_decimal(&mut text, n);
        assert_eq!(text, format!("n={}", n));
    }
}
