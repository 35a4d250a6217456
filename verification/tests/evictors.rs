use forceps::cache::{ReadEvent, ReadStep, RemoveEvent, RemoveStep, WriteEvent, WriteStep};
use forceps::evictors::{
    find_evict_candidates, select_candidates, sort_by_stamp, EvictCandidate, EvictEvent,
    EvictStep, FifoEc, FifoEvictor, LruEc, LruEvictor, SizeEviction,
};
use forceps::metadata::now_since_epoch;
use forceps::{Cache, CacheBuilder, ForcepError, Metadata};

/// Waits until the clock has moved on, so that two writes or reads differ in time.
fn tick() {
    let start = now_since_epoch();
    while now_since_epoch() == start {}
}

fn write(cache: &mut Cache, key: &[u8], value: &[u8]) {
    assert!(matches!(
        cache.write(key, value, WriteEvent::Start),
        WriteStep::Store { .. }
    ));
    assert!(matches!(
        cache.write(key, value, WriteEvent::Stored),
        WriteStep::Done(_)
    ));
    tick();
}

fn read(cache: &mut Cache, key: &[u8], value: &[u8]) {
    assert!(matches!(
        cache.read(key, ReadEvent::Start),
        ReadStep::Load { .. }
    ));
    assert!(matches!(
        cache.read(key, ReadEvent::Loaded(value.to_vec())),
        ReadStep::Done(_)
    ));
    tick();
}

fn remove(cache: &mut Cache, key: &[u8]) -> Result<Metadata, ForcepError> {
    assert!(matches!(
        cache.remove(key, RemoveEvent::Start),
        RemoveStep::Unlink { .. }
    ));
    match cache.remove(key, RemoveEvent::Removed) {
        RemoveStep::Done(meta) => Ok(meta),
        RemoveStep::Failed(e) => Err(e),
        RemoveStep::Unlink { .. } => panic!("the file is gone"),
    }
}

/// Runs an eviction to its end and returns the keys in the order of their removal.
fn evict<E: EvictCandidate>(
    cache: &mut Cache,
    mut run: SizeEviction<E>,
) -> Result<Vec<Vec<u8>>, ForcepError> {
    let mut removed = Vec::new();
    let mut event = EvictEvent::Start;
    loop {
        match run.step(cache, event)? {
            EvictStep::Finished => return Ok(removed),
            EvictStep::Remove(key) => match remove(cache, &key) {
                Ok(meta) => {
                    removed.push(key);
                    event = EvictEvent::Removed(meta);
                }
                Err(e) => event = EvictEvent::Failed(e),
            },
        }
    }
}

fn empty_cache(name: &str) -> Cache {
    let path = format!("/tmp/forceps-test/evict-{}", name);
    let mut cache = CacheBuilder::new(&path).track_access(true).build().unwrap();
    for item in cache.metadata_iter() {
        if let Ok((key, _)) = item {
            cache.remove(&key, RemoveEvent::Removed);
        }
    }
    cache
}

/// Five entries of 10, 20, 30, 40 and 50 bytes, written in this order and then read
/// in the order c, a, e, d, b.
fn filled_cache(name: &str) -> Cache {
    let mut cache = empty_cache(name);
    write(&mut cache, b"a", &[0; 10]);
    write(&mut cache, b"b", &[0; 20]);
    write(&mut cache, b"c", &[0; 30]);
    write(&mut cache, b"d", &[0; 40]);
    write(&mut cache, b"e", &[0; 50]);
    read(&mut cache, b"c", &[0; 30]);
    read(&mut cache, b"a", &[0; 10]);
    read(&mut cache, b"e", &[0; 50]);
    read(&mut cache, b"d", &[0; 40]);
    read(&mut cache, b"b", &[0; 20]);
    cache
}

fn keys_left(cache: &Cache) -> Vec<Vec<u8>> {
    let mut keys: Vec<Vec<u8>> = cache
        .metadata_iter()
        .into_iter()
        .map(|item| item.unwrap().0)
        .collect();
    keys.sort();
    keys
}

fn keys(names: &[&[u8]]) -> Vec<Vec<u8>> {
    names.iter().map(|n| n.to_vec()).collect()
}

fn item(key: &[u8], size: usize, written: u64, read: u64) -> Result<(Vec<u8>, Metadata), ForcepError> {
    Ok((key.to_vec(), Metadata::new_at(&vec![0u8; size], written).accessed_at(read)))
}

fn batch_keys<E: EvictCandidate>(batch: &[E]) -> Vec<Vec<u8>> {
    batch.iter().map(|c| c.key().to_vec()).collect()
}

#[test]
fn evictor_settings() {
    let lru = LruEvictor::new(512);
    assert_eq!(lru.min_size(), 512);
    assert_eq!(lru.batch_size(), 250);
    let lru = lru.set_batch_size(500);
    assert_eq!(lru.min_size(), 512);
    assert_eq!(lru.batch_size(), 500);

    let fifo = FifoEvictor::new(1024);
    assert_eq!(fifo.min_size(), 1024);
    assert_eq!(fifo.batch_size(), 250);
    let fifo = fifo.set_batch_size(1);
    assert_eq!(fifo.min_size(), 1024);
    assert_eq!(fifo.batch_size(), 1);
}

#[test]
fn lru_evicts_least_recently_read_first() {
    let mut cache = filled_cache("lru");
    // 150 bytes are held; c (30) and a (10) must go to come to 110 or less
    let removed = evict(&mut cache, LruEvictor::new(110).evict_to_min_size()).unwrap();
    assert_eq!(removed, keys(&[b"c", b"a"]));
    assert_eq!(keys_left(&cache), keys(&[b"b", b"d", b"e"]));
}

#[test]
fn lru_stops_as_soon_as_the_target_is_met() {
    let mut cache = filled_cache("lru-stop");
    // removing c leaves 120: exactly the target
    let removed = evict(&mut cache, LruEvictor::new(120).evict_to_min_size()).unwrap();
    assert_eq!(removed, keys(&[b"c"]));
    // nothing more to do on a second run
    let removed = evict(&mut cache, LruEvictor::new(120).evict_to_min_size()).unwrap();
    assert!(removed.is_empty());
    assert_eq!(keys_left(&cache), keys(&[b"a", b"b", b"d", b"e"]));
}

#[test]
fn fifo_evicts_first_written_first() {
    let mut cache = filled_cache("fifo");
    // the reads do not matter: a (10), b (20) and c (30) go, in the order of writing
    let removed = evict(&mut cache, FifoEvictor::new(100).evict_to_min_size()).unwrap();
    assert_eq!(removed, keys(&[b"a", b"b", b"c"]));
    assert_eq!(keys_left(&cache), keys(&[b"d", b"e"]));
}

#[test]
fn eviction_to_nothing_empties_the_store() {
    let mut cache = filled_cache("all");
    let removed = evict(&mut cache, LruEvictor::new(0).set_batch_size(2).evict_to_min_size())
        .unwrap();
    assert_eq!(removed.len(), 5);
    assert_eq!(removed[0], b"c".to_vec());
    assert!(keys_left(&cache).is_empty());
}

#[test]
fn eviction_of_an_empty_store_ends_at_once() {
    let mut cache = empty_cache("empty");
    assert!(evict(&mut cache, LruEvictor::new(0).evict_to_min_size()).unwrap().is_empty());
    assert!(evict(&mut cache, FifoEvictor::new(0).evict_to_min_size()).unwrap().is_empty());
    let mut run = LruEvictor::new(0).set_batch_size(1).evict_to_min_size();
    assert!(matches!(
        run.step(&cache, EvictEvent::Start),
        Ok(EvictStep::Finished)
    ));
}

#[test]
fn eviction_of_a_small_store_removes_nothing() {
    let mut cache = filled_cache("small");
    let removed = evict(&mut cache, LruEvictor::new(150).evict_to_min_size()).unwrap();
    assert!(removed.is_empty());
    let removed = evict(&mut cache, FifoEvictor::new(u64::MAX).evict_to_min_size()).unwrap();
    assert!(removed.is_empty());
    assert_eq!(keys_left(&cache).len(), 5);
}

#[test]
fn batch_of_one_and_batch_beyond_the_store_agree() {
    let mut single = filled_cache("batch-one");
    let mut whole = filled_cache("batch-whole");
    let by_one = evict(
        &mut single,
        LruEvictor::new(60).set_batch_size(1).evict_to_min_size(),
    )
    .unwrap();
    let at_once = evict(
        &mut whole,
        LruEvictor::new(60).set_batch_size(100).evict_to_min_size(),
    )
    .unwrap();
    assert_eq!(by_one, keys(&[b"c", b"a", b"e"]));
    assert_eq!(at_once, by_one);
    assert_eq!(keys_left(&single), keys_left(&whole));
    assert_eq!(keys_left(&single), keys(&[b"b", b"d"]));

    let mut single = filled_cache("fifo-one");
    let mut whole = filled_cache("fifo-whole");
    let by_one = evict(
        &mut single,
        FifoEvictor::new(90).set_batch_size(1).evict_to_min_size(),
    )
    .unwrap();
    let at_once = evict(
        &mut whole,
        FifoEvictor::new(90).set_batch_size(5).evict_to_min_size(),
    )
    .unwrap();
    assert_eq!(by_one, keys(&[b"a", b"b", b"c"]));
    assert_eq!(at_once, by_one);
    assert_eq!(keys_left(&single), keys_left(&whole));
}

#[test]
fn batch_of_nothing_evicts_nothing() {
    let mut cache = filled_cache("batch-zero");
    let removed = evict(&mut cache, LruEvictor::new(0).set_batch_size(0).evict_to_min_size())
        .unwrap();
    assert!(removed.is_empty());
    assert_eq!(keys_left(&cache).len(), 5);
}

#[test]
fn failed_removal_ends_the_eviction() {
    let mut cache = filled_cache("failed-event");
    let mut run = FifoEvictor::new(0).evict_to_min_size();
    assert!(matches!(run.step(&cache, EvictEvent::Start), Ok(EvictStep::Remove(k)) if k == b"a".to_vec()));
    let meta = remove(&mut cache, b"a").unwrap();
    assert!(matches!(run.step(&cache, EvictEvent::Removed(meta)), Ok(EvictStep::Remove(k)) if k == b"b".to_vec()));
    // the second removal fails: the eviction ends with that error
    let failure = std::io::Error::new(std::io::ErrorKind::PermissionDenied, "denied");
    match run.step(&cache, EvictEvent::Failed(ForcepError::Io(failure))) {
        Err(ForcepError::Io(e)) => assert_eq!(e.kind(), std::io::ErrorKind::PermissionDenied),
        _ => panic!("the failure is what the eviction returns"),
    }
    // the first removal stays in effect, and nothing after the second was touched
    assert_eq!(keys_left(&cache), keys(&[b"b", b"c", b"d", b"e"]));
}

#[test]
fn eviction_stops_at_a_record_without_a_blob() {
    let mut cache = filled_cache("failed-run");
    // the record of b is there, its blob is not: the removal of b fails
    let mut removed = Vec::new();
    let mut run = FifoEvictor::new(0).evict_to_min_size();
    let mut event = EvictEvent::Start;
    let outcome = loop {
        match run.step(&cache, event) {
            Err(e) => break Err(e),
            Ok(EvictStep::Finished) => break Ok(()),
            Ok(EvictStep::Remove(key)) => {
                event = if key == b"b".to_vec() {
                    match cache.remove(&key, RemoveEvent::Missing) {
                        RemoveStep::Failed(e) => EvictEvent::Failed(e),
                        _ => panic!("a missing blob fails the removal"),
                    }
                } else {
                    removed.push(key.clone());
                    EvictEvent::Removed(remove(&mut cache, &key).unwrap())
                };
            }
        }
    };
    assert!(matches!(outcome, Err(ForcepError::NotFound)));
    assert_eq!(removed, keys(&[b"a"]));
    assert_eq!(keys_left(&cache), keys(&[b"b", b"c", b"d", b"e"]));
}

#[test]
fn failed_removal_is_not_swallowed() {
    let mut cache = filled_cache("failed-removal");
    let mut run = LruEvictor::new(0).evict_to_min_size();
    let key = match run.step(&cache, EvictEvent::Start).unwrap() {
        EvictStep::Remove(key) => key,
        EvictStep::Finished => panic!("the store is not empty"),
    };
    assert_eq!(key, b"c".to_vec());
    remove(&mut cache, &key).unwrap();
    // the record is gone: a second removal of the same key reports the drift
    assert!(matches!(remove(&mut cache, &key), Err(ForcepError::MetaNotFound)));
}

#[test]
fn scan_picks_the_batch_and_sums_the_store() {
    let cache = filled_cache("scan");
    let (total, batch) = find_evict_candidates::<LruEc>(&cache, 3).unwrap();
    assert_eq!(total, 150);
    assert_eq!(batch.len(), 3);
    assert_eq!(batch[0].key(), b"c");
    let (total, batch) = find_evict_candidates::<FifoEc>(&cache, 10).unwrap();
    assert_eq!(total, 150);
    assert_eq!(batch_keys(&batch), keys(&[b"a", b"b", b"c", b"d", b"e"]));
    let (total, batch) = find_evict_candidates::<LruEc>(&cache, 10).unwrap();
    assert_eq!(total, 150);
    assert_eq!(batch_keys(&batch), keys(&[b"c", b"a", b"e", b"d", b"b"]));
    let (total, batch) = find_evict_candidates::<FifoEc>(&cache, 0).unwrap();
    assert_eq!(total, 150);
    assert!(batch.is_empty());
}

#[test]
fn selection_orders_by_the_policy_time() {
    let scan = || {
        vec![
            item(b"k1", 1, 30, 100),
            item(b"k2", 2, 10, 300),
            item(b"k3", 4, 20, 200),
        ]
    };
    let (total, batch) = select_candidates::<FifoEc>(scan(), 10).unwrap();
    assert_eq!(total, 7);
    assert_eq!(batch_keys(&batch), keys(&[b"k2", b"k3", b"k1"]));
    let (total, batch) = select_candidates::<LruEc>(scan(), 10).unwrap();
    assert_eq!(total, 7);
    assert_eq!(batch_keys(&batch), keys(&[b"k1", b"k3", b"k2"]));
    let (_, batch) = select_candidates::<LruEc>(scan(), 1).unwrap();
    assert_eq!(batch_keys(&batch), keys(&[b"k1"]));
    let (_, batch) = select_candidates::<FifoEc>(scan(), 1).unwrap();
    assert_eq!(batch_keys(&batch), keys(&[b"k2"]));
    let (total, batch) = select_candidates::<FifoEc>(Vec::new(), 4).unwrap();
    assert_eq!(total, 0);
    assert!(batch.is_empty());
}

#[test]
fn full_working_set_replaces_its_first_later_member() {
    // written at 4, 5 and 3: with room for two, the third takes the place of the first
    // member that is later than it, which is the one written at 4
    let scan = vec![item(b"x", 1, 4, 4), item(b"y", 1, 5, 5), item(b"z", 1, 3, 3)];
    let (total, batch) = select_candidates::<FifoEc>(scan, 2).unwrap();
    assert_eq!(total, 3);
    assert_eq!(batch_keys(&batch), keys(&[b"z", b"y"]));
    // a candidate that is later than no member is passed over
    let scan = vec![item(b"x", 1, 4, 4), item(b"y", 1, 5, 5), item(b"z", 1, 5, 5)];
    let (_, batch) = select_candidates::<FifoEc>(scan, 2).unwrap();
    assert_eq!(batch_keys(&batch), keys(&[b"x", b"y"]));
}

#[test]
fn selection_fails_with_the_first_error_of_the_scan() {
    let scan = vec![
        item(b"k1", 1, 30, 100),
        Err(ForcepError::MetaNotFound),
        item(b"k3", 4, 20, 200),
        Err(ForcepError::NotFound),
    ];
    assert!(matches!(
        select_candidates::<LruEc>(scan, 10),
        Err(ForcepError::MetaNotFound)
    ));
}

#[test]
fn store_size_stops_at_the_largest_number() {
    let big = |key: &[u8]| Ok((key.to_vec(), Metadata::deserialize(&huge_record()).unwrap()));
    let (total, batch) = select_candidates::<FifoEc>(vec![big(b"a"), big(b"b"), big(b"c")], 1)
        .unwrap();
    assert_eq!(total, u64::MAX);
    assert_eq!(batch.len(), 1);
}

/// The stored form of a record whose size is `i64::MAX`.
fn huge_record() -> Vec<u8> {
    let mut bytes = Metadata::new_at(b"", 1).serialize().unwrap();
    for b in &mut bytes[10..17] {
        *b = 0xff;
    }
    bytes[17] = 0x7f;
    bytes
}

#[test]
fn sorting_keeps_every_entry() {
    let entries: Vec<LruEc> = [5u64, 1, 4, 1, 3]
        .iter()
        .enumerate()
        .map(|(i, t)| LruEc::from_meta(vec![i as u8], Metadata::new_at(b"", 0).accessed_at(*t)))
        .collect();
    let sorted = sort_by_stamp(entries);
    assert_eq!(batch_keys(&sorted), keys(&[&[1], &[3], &[4], &[2], &[0]]));
}

#[test]
fn candidates_compare_by_their_time() {
    let old = Metadata::new_at(b"", 10).accessed_at(50);
    let new = Metadata::new_at(b"", 20).accessed_at(40);
    let (a, b) = (LruEc::from_meta(b"old".to_vec(), old), LruEc::from_meta(b"new".to_vec(), new));
    assert!(b.should_evict_over(&a));
    assert!(!a.should_evict_over(&b));
    assert!(!a.should_evict_over(&a));
    assert_eq!(a.key(), b"old");
    let (a, b) = (FifoEc::from_meta(b"old".to_vec(), old), FifoEc::from_meta(b"new".to_vec(), new));
    assert!(a.should_evict_over(&b));
    assert!(!b.should_evict_over(&a));
    assert_eq!(b.key(), b"new");
}

#[test]
fn removal_size_is_taken_off_the_total() {
    let mut cache = filled_cache("running-total");
    let mut run: SizeEviction<FifoEc> = SizeEviction::new(125, 10);
    assert!(matches!(run.step(&cache, EvictEvent::Start), Ok(EvictStep::Remove(k)) if k == b"a".to_vec()));
    let meta = remove(&mut cache, b"a").unwrap();
    assert_eq!(meta.get_size(), 10);
    // 140 are left: b is next
    assert!(matches!(run.step(&cache, EvictEvent::Removed(meta)), Ok(EvictStep::Remove(k)) if k == b"b".to_vec()));
    let meta = remove(&mut cache, b"b").unwrap();
    // 120 are left: at or below 125
    assert!(matches!(
        run.step(&cache, EvictEvent::Removed(meta)),
        Ok(EvictStep::Finished)
    ));
}
