use ironclad_db::buffer_pool::{Admission, BufferPool, NUM_FRAMES};
use ironclad_db::error::IronCladError;

fn page(fill: u8) -> Vec<u8> {
    vec![fill; 4096]
}

fn installed(r: Result<Admission, IronCladError>) {
    match r {
        Ok(Admission::Installed) => {}
        other => panic!("unexpected result: {:?}", other),
    }
}

#[test]
fn test_buffer_pool_integration() {
    let mut bp = BufferPool::new();

    // Test putting multiple pages
    for i in 0..100 {
        let data = vec![i as u8; 4096];
        bp.put_page(i, data).unwrap();
    }

    let stats = bp.stats();
    assert_eq!(stats.used_frames, 100);

    // Test getting cached pages
    for i in 0..100 {
        let data = bp.get_page(i);
        assert!(data.is_some());
    }
}

#[test]
fn new_pool_is_empty() {
    let bp = BufferPool::new();
    let stats = bp.stats();
    assert_eq!(stats.total_frames, NUM_FRAMES);
    assert_eq!(stats.total_frames, 12288);
    assert_eq!(stats.used_frames, 0);
    assert_eq!(stats.dirty_pages, 0);
    assert_eq!(stats.pinned_pages, 0);
    assert_eq!(stats.page_table_size, 0);
}

#[test]
fn get_of_absent_page_is_none() {
    let mut bp = BufferPool::with_capacity(4);
    assert!(bp.get_page(7).is_none());
    assert_eq!(bp.stats().used_frames, 0);
}

#[test]
fn put_then_get_returns_the_image() {
    let mut bp = BufferPool::with_capacity(4);
    installed(bp.put_page(7, page(0xAB)));
    assert_eq!(bp.get_page(7), Some(page(0xAB)));
    let stats = bp.stats();
    assert_eq!(stats.used_frames, 1);
    assert_eq!(stats.dirty_pages, 1);
    assert_eq!(stats.pinned_pages, 0);
    assert_eq!(stats.page_table_size, 1);
}

#[test]
fn put_on_resident_page_updates_in_place() {
    let mut bp = BufferPool::with_capacity(2);
    installed(bp.put_page(1, page(1)));
    bp.clear_dirty(1).unwrap();
    installed(bp.put_page(1, page(2)));
    assert_eq!(bp.get_page(1), Some(page(2)));
    let stats = bp.stats();
    assert_eq!(stats.used_frames, 1);
    assert_eq!(stats.dirty_pages, 1);
}

#[test]
fn put_of_wrong_size_is_refused() {
    let mut bp = BufferPool::with_capacity(2);
    match bp.put_page(1, vec![0u8; 100]) {
        Err(IronCladError::ConfigError(text)) => assert_eq!(text, "Page size must be 4096, got 100"),
        other => panic!("unexpected result: {:?}", other),
    }
    match bp.load_page_into_buffer(1, vec![0u8; 5000]) {
        Err(IronCladError::ConfigError(text)) => {
            assert_eq!(text, "Page size must be 4096, got 5000")
        }
        other => panic!("unexpected result: {:?}", other),
    }
    match bp.put_page(1, Vec::new()) {
        Err(IronCladError::ConfigError(text)) => assert_eq!(text, "Page size must be 4096, got 0"),
        other => panic!("unexpected result: {:?}", other),
    }
    assert_eq!(bp.stats().used_frames, 0);
    assert!(bp.get_dirty_pages().is_empty());
}

#[test]
fn loaded_page_is_clean_and_unpinned() {
    let mut bp = BufferPool::with_capacity(2);
    installed(bp.load_page_into_buffer(3, page(9)));
    let stats = bp.stats();
    assert_eq!(stats.used_frames, 1);
    assert_eq!(stats.dirty_pages, 0);
    assert_eq!(stats.pinned_pages, 0);
    assert_eq!(bp.get_page(3), Some(page(9)));
}

#[test]
fn load_does_not_overwrite_a_resident_page() {
    let mut bp = BufferPool::with_capacity(2);
    installed(bp.put_page(3, page(1)));
    installed(bp.load_page_into_buffer(3, page(2)));
    assert_eq!(bp.get_page(3), Some(page(1)));
    assert_eq!(bp.stats().dirty_pages, 1);
}

#[test]
fn pin_and_unpin_need_a_resident_page() {
    let mut bp = BufferPool::with_capacity(2);
    match bp.pin_page(5) {
        Err(IronCladError::PageNotFound { page_id }) => assert_eq!(page_id, 5),
        other => panic!("unexpected result: {:?}", other),
    }
    match bp.unpin_page(5) {
        Err(IronCladError::PageNotFound { page_id }) => assert_eq!(page_id, 5),
        other => panic!("unexpected result: {:?}", other),
    }
    match bp.clear_dirty(5) {
        Err(IronCladError::PageNotFound { page_id }) => assert_eq!(page_id, 5),
        other => panic!("unexpected result: {:?}", other),
    }
}

#[test]
fn pin_counts_are_tracked() {
    let mut bp = BufferPool::with_capacity(2);
    installed(bp.put_page(1, page(1)));
    bp.pin_page(1).unwrap();
    bp.pin_page(1).unwrap();
    assert_eq!(bp.stats().pinned_pages, 1);
    bp.unpin_page(1).unwrap();
    assert_eq!(bp.stats().pinned_pages, 1);
    bp.unpin_page(1).unwrap();
    assert_eq!(bp.stats().pinned_pages, 0);
    // one unpin too many changes nothing
    bp.unpin_page(1).unwrap();
    assert_eq!(bp.stats().pinned_pages, 0);
}

#[test]
fn clean_victim_is_evicted_in_lru_order() {
    let mut bp = BufferPool::with_capacity(2);
    installed(bp.load_page_into_buffer(1, page(1)));
    installed(bp.load_page_into_buffer(2, page(2)));
    // page 1 becomes the most recently used, so page 2 is the victim
    assert!(bp.get_page(1).is_some());
    installed(bp.load_page_into_buffer(3, page(3)));
    assert!(bp.get_page(2).is_none());
    assert_eq!(bp.get_page(1), Some(page(1)));
    assert_eq!(bp.get_page(3), Some(page(3)));
    assert_eq!(bp.stats().used_frames, 2);
}

#[test]
fn dirty_victim_is_handed_out_before_it_leaves() {
    let mut bp = BufferPool::with_capacity(2);
    installed(bp.put_page(1, page(1)));
    installed(bp.put_page(2, page(2)));
    match bp.put_page(3, page(3)) {
        Ok(Admission::WriteBack { page_id, data }) => {
            assert_eq!(page_id, 1);
            assert_eq!(data, page(1));
        }
        other => panic!("unexpected result: {:?}", other),
    }
    // nothing has changed
    assert_eq!(bp.stats().used_frames, 2);
    assert_eq!(bp.stats().dirty_pages, 2);
    assert!(bp.get_dirty_pages().iter().any(|(id, _)| *id == 1));
    // once the victim is clean the admission goes through
    bp.clear_dirty(1).unwrap();
    installed(bp.put_page(3, page(3)));
    assert_eq!(bp.stats().used_frames, 2);
    assert_eq!(bp.get_page(3), Some(page(3)));
    assert_eq!(bp.get_page(2), Some(page(2)));
}

#[test]
fn pinned_pages_are_passed_over() {
    let mut bp = BufferPool::with_capacity(2);
    installed(bp.load_page_into_buffer(1, page(1)));
    installed(bp.load_page_into_buffer(2, page(2)));
    bp.pin_page(1).unwrap();
    installed(bp.load_page_into_buffer(3, page(3)));
    assert_eq!(bp.get_page(1), Some(page(1)));
    assert_eq!(bp.get_page(3), Some(page(3)));
    assert!(bp.get_page(2).is_none());
}

#[test]
fn pool_of_pinned_pages_is_exhausted() {
    let mut bp = BufferPool::with_capacity(2);
    installed(bp.load_page_into_buffer(1, page(1)));
    installed(bp.load_page_into_buffer(2, page(2)));
    bp.pin_page(1).unwrap();
    bp.pin_page(2).unwrap();
    match bp.put_page(3, page(3)) {
        Err(IronCladError::BufferPoolExhausted) => {}
        other => panic!("unexpected result: {:?}", other),
    }
    assert_eq!(bp.get_page(1), Some(page(1)));
    assert_eq!(bp.get_page(2), Some(page(2)));
}

#[test]
fn pool_without_frames_is_exhausted() {
    let mut bp = BufferPool::with_capacity(0);
    match bp.put_page(1, page(1)) {
        Err(IronCladError::BufferPoolExhausted) => {}
        other => panic!("unexpected result: {:?}", other),
    }
}

#[test]
fn dirty_pages_are_listed_once_each() {
    let mut bp = BufferPool::with_capacity(4);
    installed(bp.put_page(1, page(1)));
    installed(bp.load_page_into_buffer(2, page(2)));
    installed(bp.put_page(3, page(3)));
    let mut dirty = bp.get_dirty_pages();
    dirty.sort();
    assert_eq!(dirty, vec![(1, page(1)), (3, page(3))]);
    bp.clear_dirty(1).unwrap();
    assert_eq!(bp.get_dirty_pages(), vec![(3, page(3))]);
}
