use ocache::byteview::ByteView;
use ocache::cache::{Cache, LRUCache};

fn bytes(n: usize, fill: u8) -> ByteView {
    ByteView::from_bytes(vec![fill; n])
}

#[test]
fn lru_basic_eviction_order() {
    let mut c = LRUCache::new(10);
    c.add("a", bytes(4, 1));
    c.add("b", bytes(4, 2));
    c.add("c", bytes(4, 3));
    assert!(c.get("a").is_none());
    assert_eq!(c.current_bytes(), 8);
    let b = c.get("b").unwrap();
    assert_eq!(b.into_bytes(), vec![2u8; 4]);
    c.add("d", bytes(4, 4));
    assert!(c.get("c").is_none());
    assert!(c.get("b").is_some());
    assert!(c.get("d").is_some());
    assert_eq!(c.current_bytes(), 8);
    assert_eq!(c.len(), 2);
}

#[test]
fn lru_oversize_insert_empties_cache() {
    let mut c = LRUCache::new(5);
    c.add("x", bytes(10, 7));
    assert_eq!(c.len(), 0);
    assert_eq!(c.current_bytes(), 0);
    assert!(c.get("x").is_none());
}

#[test]
fn lru_oversize_insert_evicts_everything_before_it() {
    let mut c = LRUCache::new(5);
    c.add("a", bytes(2, 1));
    c.add("b", bytes(2, 1));
    c.add("x", bytes(6, 1));
    assert_eq!(c.len(), 0);
    assert_eq!(c.current_bytes(), 0);
}

#[test]
fn lru_update_adjusts_byte_count() {
    let mut c = LRUCache::new(0);
    c.add("k", bytes(3, 1));
    c.add("j", bytes(5, 1));
    assert_eq!(c.current_bytes(), 8);
    c.add("k", bytes(1, 9));
    assert_eq!(c.current_bytes(), 6);
    assert_eq!(c.len(), 2);
    assert_eq!(c.get("k").unwrap().into_bytes(), vec![9u8]);
}

#[test]
fn lru_update_moves_key_to_active_end() {
    let mut c = LRUCache::new(9);
    c.add("a", bytes(3, 1));
    c.add("b", bytes(3, 1));
    c.add("c", bytes(3, 1));
    c.add("a", bytes(3, 2));
    c.add("d", bytes(3, 1));
    assert!(c.get("b").is_none());
    assert!(c.get("a").is_some());
    assert!(c.get("c").is_some());
}

#[test]
fn lru_unbounded_never_evicts() {
    let mut c = LRUCache::new(0);
    for i in 0..100u8 {
        let key = format!("k{}", i);
        c.add(&key, bytes(1000, i));
    }
    assert_eq!(c.len(), 100);
    assert_eq!(c.current_bytes(), 100_000);
    for i in 0..100u8 {
        let key = format!("k{}", i);
        assert_eq!(c.get(&key).unwrap().len(), 1000);
    }
}

#[test]
fn lru_bound_holds_after_every_add() {
    let mut c = LRUCache::new(17);
    let mut total_expected_max = 0usize;
    for i in 0..50usize {
        let key = format!("k{}", i % 7);
        c.add(&key, bytes(i % 9, 1));
        assert!(c.current_bytes() <= 17);
        total_expected_max = total_expected_max.max(c.current_bytes());
    }
    assert!(total_expected_max <= 17);
    assert_eq!(c.max_bytes(), 17);
}

#[test]
fn lru_empty_value_counts_zero_bytes() {
    let mut c = LRUCache::new(4);
    c.add("e", bytes(0, 0));
    assert_eq!(c.current_bytes(), 0);
    assert_eq!(c.get("e").unwrap().len(), 0);
}

#[test]
fn cache_wrapper_get_and_add() {
    let mut c = Cache::new(10);
    assert!(c.get("a").is_none());
    c.add("a", ByteView::from_string("hello".to_string()));
    assert_eq!(c.current_bytes(), 5);
    assert_eq!(c.get("a").unwrap().into_bytes(), b"hello".to_vec());
}

#[test]
fn byteview_from_string_and_clone() {
    let v = ByteView::from_string("héllo".to_string());
    assert_eq!(v.len(), 6);
    let w = v.clone();
    assert_eq!(w.into_bytes(), "héllo".as_bytes().to_vec());
    assert_eq!(v.into_bytes().len(), 6);
}
