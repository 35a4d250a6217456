use bytes::Bytes;
use forceps::mem_cache::{hash_key, MemCache, MemCacheInner};

const D: &'static [u8] = &[0; 4096];

#[test]
fn verify_eviction() {
    let mut cache = MemCache::new(D.len() * 2);
    cache.put(b"ENT1", Bytes::from(D));
    cache.put(b"ENT2", Bytes::from(D));
    // verify that ENT1 still exists in cache (no eviction yet)
    assert!(cache.peek(b"ENT1").is_some());

    // with the new put, cache should evict ENT1
    cache.put(b"ENT3", Bytes::from(D));
    assert!(cache.peek(b"ENT1").is_none());
}

#[test]
fn size_updates() {
    // make sure current size is being updated after insertion of items
    let mut cache = MemCache::new(D.len() * 2);
    cache.put(b"ENT1", Bytes::from(D));
    cache.put(b"ENT2", Bytes::from(D));
    assert_eq!(cache.current_size().unwrap(), D.len() * 2);

    // this will verify that the last replaced entry has its byte count removed
    cache.put(b"ENT2", Bytes::from(D));
    assert_eq!(cache.current_size().unwrap(), D.len() * 2);
}

#[test]
fn layer_without_capacity_is_off() {
    let mut cache = MemCache::new(0);
    assert!(cache.is_nil());
    assert!(cache.put(b"K", Bytes::from_static(b"value")).is_none());
    assert!(cache.get(b"K").is_none());
    assert!(cache.peek(b"K").is_none());
    assert!(cache.current_size().is_none());
    assert!(!MemCache::new(1).is_nil());
}

#[test]
fn evicted_entry_survives_no_longer_than_its_turn() {
    let mut cache = MemCache::new(D.len() * 2);
    cache.put(b"ENT1", Bytes::from(D));
    cache.put(b"ENT2", Bytes::from(D));
    cache.put(b"ENT3", Bytes::from(D));
    assert!(cache.peek(b"ENT1").is_none());
    assert!(cache.peek(b"ENT2").is_some());
    assert!(cache.peek(b"ENT3").is_some());
    assert_eq!(cache.current_size().unwrap(), D.len() * 2);
}

#[test]
fn size_never_exceeds_capacity() {
    let mut cache = MemCache::new(10);
    let sizes = [3usize, 4, 5, 10, 1, 11, 2, 2, 2, 2, 2, 2];
    for (i, size) in sizes.iter().enumerate() {
        cache.put(&[i as u8], Bytes::from(vec![0u8; *size]));
        assert!(cache.current_size().unwrap() <= 10);
    }
    // the last five entries of two bytes each are what fits
    assert_eq!(cache.current_size().unwrap(), 10);
    assert!(cache.peek(&[6]).is_none());
    for i in 7..12u8 {
        assert!(cache.peek(&[i]).is_some());
    }
}

#[test]
fn reading_an_entry_spares_it() {
    let mut cache = MemCache::new(3);
    cache.put(b"a", Bytes::from_static(b"1"));
    cache.put(b"b", Bytes::from_static(b"2"));
    cache.put(b"c", Bytes::from_static(b"3"));
    // a is the least recently used until it is read
    assert_eq!(cache.get(b"a").unwrap().as_ref(), b"1");
    cache.put(b"d", Bytes::from_static(b"4"));
    assert!(cache.peek(b"b").is_none());
    assert!(cache.peek(b"a").is_some());
    // peeking does not spare an entry
    assert!(cache.peek(b"c").is_some());
    cache.put(b"e", Bytes::from_static(b"5"));
    assert!(cache.peek(b"c").is_none());
    assert!(cache.get(b"missing").is_none());
}

#[test]
fn put_returns_the_replaced_value() {
    let mut cache = MemCache::new(8);
    assert!(cache.put(b"k", Bytes::from_static(b"old")).is_none());
    let before = cache.put(b"k", Bytes::from_static(b"newer"));
    assert_eq!(before.unwrap().as_ref(), b"old");
    assert_eq!(cache.peek(b"k").unwrap().as_ref(), b"newer");
    assert_eq!(cache.current_size().unwrap(), 5);
}

#[test]
fn value_larger_than_the_capacity_empties_the_layer() {
    let mut cache = MemCache::new(4);
    cache.put(b"a", Bytes::from_static(b"12"));
    cache.put(b"big", Bytes::from_static(b"12345"));
    assert!(cache.peek(b"a").is_none());
    assert!(cache.peek(b"big").is_none());
    assert_eq!(cache.current_size().unwrap(), 0);
}

#[test]
fn inner_layer_by_itself() {
    let mut inner = MemCacheInner::new(2);
    assert!(inner.put(b"a", Bytes::from_static(b"1")).is_none());
    assert!(inner.put(b"b", Bytes::from_static(b"2")).is_none());
    assert_eq!(inner.get(b"a").unwrap().as_ref(), b"1");
    inner.put(b"c", Bytes::from_static(b"3"));
    assert!(inner.peek(b"b").is_none());
    assert_eq!(inner.peek(b"a").unwrap().as_ref(), b"1");
    assert_eq!(inner.peek(b"c").unwrap().as_ref(), b"3");
}

#[test]
fn keys_are_filed_under_their_digest() {
    assert_eq!(
        hash_key(b"Hello World"),
        [177, 10, 141, 177, 100, 224, 117, 65, 5, 183, 169, 155, 231, 46, 63, 229]
    );
    assert_eq!(
        hash_key(b""),
        [0xd4, 0x1d, 0x8c, 0xd9, 0x8f, 0x00, 0xb2, 0x04, 0xe9, 0x80, 0x09, 0x98, 0xec, 0xf8, 0x42, 0x7e]
    );
}

#[test]
fn removed_entry_is_gone_and_its_bytes_are_taken_off() {
    let mut cache = MemCache::new(10);
    cache.put(b"a", Bytes::from_static(b"123"));
    cache.put(b"b", Bytes::from_static(b"4567"));
    assert_eq!(cache.remove(b"a").unwrap().as_ref(), b"123");
    assert!(cache.peek(b"a").is_none());
    assert_eq!(cache.peek(b"b").unwrap().as_ref(), b"4567");
    assert_eq!(cache.current_size().unwrap(), 4);
    assert!(cache.remove(b"a").is_none());
    assert!(cache.remove(b"never").is_none());
    assert_eq!(cache.current_size().unwrap(), 4);
    assert!(MemCache::new(0).remove(b"a").is_none());

    let mut inner = MemCacheInner::new(4);
    inner.put(b"k", Bytes::from_static(b"12"));
    assert_eq!(inner.remove(b"k").unwrap().as_ref(), b"12");
    assert!(inner.peek(b"k").is_none());
}
