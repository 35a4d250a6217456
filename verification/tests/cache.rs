use bytes::Bytes;
use forceps::cache::{ReadEvent, ReadStep, RemoveEvent, RemoveStep, WriteEvent, WriteStep};
use forceps::layout::path_from_key;
use forceps::tmp::{tmpname, tmppath_in};
use forceps::{Cache, CacheBuilder, ForcepError, Metadata};
use std::collections::HashMap;

/// Stands in for the blob files: what lies at each path below the cache root.
struct Disk {
    files: HashMap<Vec<String>, Vec<u8>>,
}

fn missing() -> std::io::Error {
    std::io::Error::new(std::io::ErrorKind::NotFound, "no such file")
}

fn write(
    cache: &mut Cache,
    disk: &mut Disk,
    key: &[u8],
    value: &[u8],
) -> Result<Metadata, ForcepError> {
    match cache.write(key, value, WriteEvent::Start) {
        WriteStep::Store { staging, destination, buffer } => {
            assert!(staging.starts_with("tmp"));
            assert_eq!(staging.len(), 13);
            assert_eq!(buffer, 8192);
            disk.files.insert(destination, value.to_vec());
        }
        _ => panic!("a write begins with a store step"),
    }
    match cache.write(key, value, WriteEvent::Stored) {
        WriteStep::Done(meta) => Ok(meta),
        WriteStep::Failed(e) => Err(e),
        WriteStep::Store { .. } => panic!("the file is in place"),
    }
}

fn read(cache: &mut Cache, disk: &Disk, key: &[u8]) -> Result<Bytes, ForcepError> {
    let event = match cache.read(key, ReadEvent::Start) {
        ReadStep::Done(bytes) => return Ok(bytes),
        ReadStep::Failed(e) => return Err(e),
        ReadStep::Load { path, .. } => match disk.files.get(&path) {
            Some(data) => ReadEvent::Loaded(data.clone()),
            None => ReadEvent::Missing,
        },
    };
    match cache.read(key, event) {
        ReadStep::Done(bytes) => Ok(bytes),
        ReadStep::Failed(e) => Err(e),
        ReadStep::Load { .. } => panic!("the file was read"),
    }
}

fn remove(cache: &mut Cache, disk: &mut Disk, key: &[u8]) -> Result<Metadata, ForcepError> {
    let event = match cache.remove(key, RemoveEvent::Start) {
        RemoveStep::Unlink { blob, staging } => {
            assert!(staging.starts_with("tmp"));
            match disk.files.remove(&blob) {
                Some(_) => RemoveEvent::Removed,
                None => RemoveEvent::Missing,
            }
        }
        _ => panic!("a removal begins with an unlink step"),
    };
    match cache.remove(key, event) {
        RemoveStep::Done(meta) => Ok(meta),
        RemoveStep::Failed(e) => Err(e),
        RemoveStep::Unlink { .. } => panic!("the file is gone"),
    }
}

/// A cache in a directory of its own, with no record left from an earlier run.
fn fresh_cache(name: &str, builder: fn(CacheBuilder) -> CacheBuilder) -> (Cache, Disk) {
    let path = format!("/tmp/forceps-test/cache-{}", name);
    let mut cache = builder(CacheBuilder::new(&path)).build().unwrap();
    for item in cache.metadata_iter() {
        if let Ok((key, _)) = item {
            cache.remove(&key, RemoveEvent::Removed);
        }
    }
    (cache, Disk { files: HashMap::new() })
}

fn plain(builder: CacheBuilder) -> CacheBuilder {
    builder
}

fn tracking(builder: CacheBuilder) -> CacheBuilder {
    builder.track_access(true)
}

fn with_memory(builder: CacheBuilder) -> CacheBuilder {
    builder.memory_lru_max_size(64)
}

fn strings(parts: &[&str]) -> Vec<String> {
    parts.iter().map(|p| p.to_string()).collect()
}

#[test]
fn short_path() {
    let (cache, _) = fresh_cache("short_path", plain);
    assert_eq!(cache.path_from_key(&[0xAA]), strings(&["aa", "__", "aa"]));
    assert_eq!(cache.path_from_key(&[0xAA, 0xBB]), strings(&["aa", "bb", "aabb"]));
    assert_eq!(
        cache.path_from_key(&[0xAA, 0xBB, 0xCC]),
        strings(&["aa", "bb", "aabbcc"])
    );
}

#[test]
fn write_read_remove() {
    let (mut cache, mut disk) = fresh_cache("write_read_remove", plain);

    write(&mut cache, &mut disk, b"CACHE_KEY", b"Hello World").unwrap();
    let data = read(&mut cache, &disk, b"CACHE_KEY").unwrap();
    assert_eq!(data.as_ref(), b"Hello World");
    remove(&mut cache, &mut disk, b"CACHE_KEY").unwrap();
}

#[test]
fn tracking_test() {
    let (mut cache, mut disk) = fresh_cache("tracking_test", tracking);

    write(&mut cache, &mut disk, b"CACHE_KEY", b"Hello World").unwrap();
    for _ in 0..100 {
        read(&mut cache, &disk, b"CACHE_KEY").unwrap();
    }
    assert_eq!(cache.read_metadata(b"CACHE_KEY").unwrap().get_hits(), 100);
}

#[test]
fn read_metadata() {
    let (mut cache, mut disk) = fresh_cache("read_metadata", plain);

    write(&mut cache, &mut disk, b"CACHE_KEY", b"Hello World").unwrap();
    let metadata = cache.read_metadata(b"CACHE_KEY").unwrap();
    assert_eq!(metadata.get_size(), b"Hello World".len() as u64);
}

#[test]
fn tracking_off_counts_nothing() {
    let (mut cache, mut disk) = fresh_cache("tracking_off", plain);

    let written = write(&mut cache, &mut disk, b"K", b"value").unwrap();
    for _ in 0..7 {
        assert_eq!(read(&mut cache, &disk, b"K").unwrap().as_ref(), b"value");
    }
    let meta = cache.read_metadata(b"K").unwrap();
    assert_eq!(meta.get_hits(), 0);
    assert_eq!(meta.get_last_accessed_raw(), written.get_last_modified_raw());
    assert_eq!(meta.get_last_modified_raw(), written.get_last_modified_raw());
}

#[test]
fn tracking_counts_reads_from_memory_too() {
    let (mut cache, mut disk) =
        fresh_cache("tracking_memory", |b| b.track_access(true).memory_lru_max_size(64));

    write(&mut cache, &mut disk, b"K", b"value").unwrap();
    for _ in 0..5 {
        match cache.read(b"K", ReadEvent::Start) {
            ReadStep::Done(bytes) => assert_eq!(bytes.as_ref(), b"value"),
            _ => panic!("the memory layer holds the value"),
        }
    }
    assert_eq!(cache.read_metadata(b"K").unwrap().get_hits(), 5);
}

#[test]
fn written_record_describes_the_value() {
    let (mut cache, mut disk) = fresh_cache("written_record", plain);

    let meta = write(&mut cache, &mut disk, b"K", b"Hello World").unwrap();
    assert_eq!(meta.get_size(), 11);
    assert_eq!(meta.get_hits(), 0);
    assert_eq!(meta.get_last_accessed_raw(), meta.get_last_modified_raw());
    assert!(meta.get_last_modified_raw() > 0);
    assert!(meta.check_integrity_of(b"Hello World"));
    assert!(!meta.check_integrity_of(b"Hello"));
}

#[test]
fn overwrite_replaces() {
    let (mut cache, mut disk) = fresh_cache("overwrite", plain);

    write(&mut cache, &mut disk, b"K", b"first value").unwrap();
    write(&mut cache, &mut disk, b"K", b"second").unwrap();
    assert_eq!(read(&mut cache, &disk, b"K").unwrap().as_ref(), b"second");
    assert_eq!(cache.read_metadata(b"K").unwrap().get_size(), 6);
}

#[test]
fn overwrite_replaces_in_memory() {
    let (mut cache, mut disk) = fresh_cache("overwrite_memory", with_memory);

    write(&mut cache, &mut disk, b"K", b"first value").unwrap();
    write(&mut cache, &mut disk, b"K", b"second").unwrap();
    match cache.read(b"K", ReadEvent::Start) {
        ReadStep::Done(bytes) => assert_eq!(bytes.as_ref(), b"second"),
        _ => panic!("the memory layer holds the value"),
    }
}

#[test]
fn read_after_remove_is_not_found() {
    let (mut cache, mut disk) = fresh_cache("read_after_remove", plain);

    write(&mut cache, &mut disk, b"K", b"value").unwrap();
    let removed = remove(&mut cache, &mut disk, b"K").unwrap();
    assert_eq!(removed.get_size(), 5);
    assert!(matches!(read(&mut cache, &disk, b"K"), Err(ForcepError::NotFound)));
    assert!(matches!(
        cache.read_metadata(b"K"),
        Err(ForcepError::MetaNotFound)
    ));
}

#[test]
fn remove_of_a_key_never_written_is_not_found() {
    let (mut cache, mut disk) = fresh_cache("remove_never_written", plain);

    assert!(matches!(
        remove(&mut cache, &mut disk, b"NEVER"),
        Err(ForcepError::NotFound)
    ));
    assert!(matches!(read(&mut cache, &disk, b"NEVER"), Err(ForcepError::NotFound)));
}

#[test]
fn blob_without_record_is_reported() {
    let (mut cache, _) = fresh_cache("drift", plain);

    // the file was there and is gone, but the store never had a record
    match cache.remove(b"DRIFT", RemoveEvent::Removed) {
        RemoveStep::Failed(ForcepError::MetaNotFound) => {}
        _ => panic!("a missing record is reported as such"),
    }
}

#[test]
fn other_io_failures_are_passed_on() {
    let (mut cache, _) = fresh_cache("io_failures", plain);
    let denied = || std::io::Error::new(std::io::ErrorKind::PermissionDenied, "denied");

    match cache.read(b"K", ReadEvent::OpenFailed(denied())) {
        ReadStep::Failed(ForcepError::Io(e)) => {
            assert_eq!(e.kind(), std::io::ErrorKind::PermissionDenied)
        }
        _ => panic!("an I/O error is passed on"),
    }
    // a failure while reading is an I/O error whatever its kind
    match cache.read(b"K", ReadEvent::LoadFailed(missing())) {
        ReadStep::Failed(ForcepError::Io(e)) => assert_eq!(e.kind(), std::io::ErrorKind::NotFound),
        _ => panic!("an I/O error is passed on"),
    }
    match cache.write(b"K", b"v", WriteEvent::Failed(missing())) {
        WriteStep::Failed(ForcepError::Io(e)) => assert_eq!(e.kind(), std::io::ErrorKind::NotFound),
        _ => panic!("an I/O error is passed on"),
    }
    match cache.remove(b"K", RemoveEvent::RelocateFailed(denied())) {
        RemoveStep::Failed(ForcepError::Io(_)) => {}
        _ => panic!("an I/O error is passed on"),
    }
    match cache.remove(b"K", RemoveEvent::DeleteFailed(missing())) {
        RemoveStep::Failed(ForcepError::Io(_)) => {}
        _ => panic!("a failed delete is an I/O error whatever its kind"),
    }
    match cache.remove(b"K", RemoveEvent::Missing) {
        RemoveStep::Failed(ForcepError::NotFound) => {}
        _ => panic!("a missing blob is not found"),
    }
    match cache.read(b"K", ReadEvent::Missing) {
        ReadStep::Failed(ForcepError::NotFound) => {}
        _ => panic!("a missing blob is not found"),
    }
}

#[test]
fn memory_layer_serves_reads() {
    let (mut cache, mut disk) = fresh_cache("memory_reads", with_memory);

    write(&mut cache, &mut disk, b"K", b"value").unwrap();
    // the file is lost; the memory layer still has the value
    disk.files.clear();
    assert_eq!(read(&mut cache, &disk, b"K").unwrap().as_ref(), b"value");
}

#[test]
fn memory_layer_is_filled_by_reads() {
    let (mut cache, mut disk) = fresh_cache("memory_filled", with_memory);

    // 40 + 40 bytes do not fit 64: writing B pushes A out
    write(&mut cache, &mut disk, b"A", &[1u8; 40]).unwrap();
    write(&mut cache, &mut disk, b"B", &[2u8; 40]).unwrap();
    assert!(matches!(cache.read(b"A", ReadEvent::Start), ReadStep::Load { .. }));
    // reading A from the file brings it back, and pushes B out
    assert_eq!(read(&mut cache, &disk, b"A").unwrap().as_ref(), &[1u8; 40][..]);
    assert!(matches!(cache.read(b"A", ReadEvent::Start), ReadStep::Done(_)));
    assert!(matches!(cache.read(b"B", ReadEvent::Start), ReadStep::Load { .. }));
}

#[test]
fn value_larger_than_the_memory_layer_is_not_kept() {
    let (mut cache, mut disk) = fresh_cache("memory_oversize", with_memory);

    write(&mut cache, &mut disk, b"BIG", &[7u8; 65]).unwrap();
    assert!(matches!(cache.read(b"BIG", ReadEvent::Start), ReadStep::Load { .. }));
    assert_eq!(read(&mut cache, &disk, b"BIG").unwrap().len(), 65);
}

#[test]
fn removal_clears_the_memory_layer() {
    let (mut cache, mut disk) = fresh_cache("memory_remove", |b| b.memory_lru_max_size(1024));

    write(&mut cache, &mut disk, b"K", b"V").unwrap();
    write(&mut cache, &mut disk, b"OTHER", b"stays").unwrap();
    remove(&mut cache, &mut disk, b"K").unwrap();
    assert!(matches!(
        cache.read_metadata(b"K"),
        Err(ForcepError::MetaNotFound)
    ));
    assert!(matches!(
        cache.read(b"K", ReadEvent::Start),
        ReadStep::Load { .. }
    ));
    assert!(matches!(read(&mut cache, &disk, b"K"), Err(ForcepError::NotFound)));
    // the other entry is still served from memory
    match cache.read(b"OTHER", ReadEvent::Start) {
        ReadStep::Done(bytes) => assert_eq!(bytes.as_ref(), b"stays"),
        _ => panic!("the memory layer holds the value"),
    }
}

#[test]
fn read_step_names_the_blob_and_the_buffer() {
    let path = "/tmp/forceps-test/cache-read-step";
    let mut cache = CacheBuilder::new(path)
        .dir_depth(3)
        .read_write_buffer(1024 * 16)
        .build()
        .unwrap();
    assert_eq!(cache.root(), path);
    match cache.read(&[0x01, 0x2f], ReadEvent::Start) {
        ReadStep::Load { path, buffer } => {
            assert_eq!(path, strings(&["01", "2f", "__", "012f"]));
            assert_eq!(buffer, 16384);
        }
        _ => panic!("nothing is cached"),
    }
    match cache.write(&[0x01, 0x2f], b"v", WriteEvent::Start) {
        WriteStep::Store { destination, buffer, .. } => {
            assert_eq!(destination, strings(&["01", "2f", "__", "012f"]));
            assert_eq!(buffer, 16384);
        }
        _ => panic!("a write begins with a store step"),
    }
}

#[test]
fn path_layout() {
    assert_eq!(path_from_key(b"", 2), strings(&["__", "__", ""]));
    assert_eq!(path_from_key(b"", 0), strings(&[""]));
    assert_eq!(path_from_key(&[0x00, 0xff, 0x10], 0), strings(&["00ff10"]));
    assert_eq!(path_from_key(&[0x00, 0xff, 0x10], 1), strings(&["00", "00ff10"]));
    assert_eq!(
        path_from_key(&[0x00, 0xff, 0x10], 5),
        strings(&["00", "ff", "10", "__", "__", "00ff10"])
    );
    assert_eq!(
        path_from_key(b"MY_KEY", 2),
        strings(&["4d", "59", "4d595f4b4559"])
    );
}

#[test]
fn temporary_names() {
    let name = tmpname("tmp", 10);
    assert_eq!(name.len(), 13);
    assert!(name.starts_with("tmp"));
    assert!(name[3..].bytes().all(|b| b.is_ascii_alphanumeric()));
    assert_eq!(tmpname("prefix-", 0), "prefix-");
    assert_ne!(tmpname("", 32), tmpname("", 32));

    let path = tmppath_in(strings(&["cache", "root"]));
    assert_eq!(path.len(), 3);
    assert_eq!(path[..2], strings(&["cache", "root"])[..]);
    assert_eq!(path[2].len(), 13);
    assert!(path[2].starts_with("tmp"));
}

#[test]
fn builder_sets_each_option() {
    let path = "/tmp/forceps-test/cache-builder";
    let mut cache = Cache::new(path)
        .dir_depth(1)
        .memory_lru_max_size(4)
        .read_write_buffer(512)
        .track_access(true)
        .build()
        .unwrap();
    let mut disk = Disk { files: HashMap::new() };
    match cache.write(&[0xab, 0xcd], b"abcd", WriteEvent::Start) {
        WriteStep::Store { destination, buffer, .. } => {
            assert_eq!(destination, strings(&["ab", "abcd"]));
            assert_eq!(buffer, 512);
        }
        _ => panic!("a write begins with a store step"),
    }
    write_unchecked(&mut cache, &mut disk, &[0xab, 0xcd], b"abcd");
    // four bytes fit the memory layer, and the read is counted
    assert!(matches!(cache.read(&[0xab, 0xcd], ReadEvent::Start), ReadStep::Done(_)));
    assert_eq!(cache.read_metadata(&[0xab, 0xcd]).unwrap().get_hits(), 1);
}

fn write_unchecked(cache: &mut Cache, disk: &mut Disk, key: &[u8], value: &[u8]) {
    if let WriteStep::Store { destination, .. } = cache.write(key, value, WriteEvent::Start) {
        disk.files.insert(destination, value.to_vec());
    }
    assert!(matches!(
        cache.write(key, value, WriteEvent::Stored),
        WriteStep::Done(_)
    ));
}

#[test]
fn default_builder_has_the_defaults() {
    let shown = format!("{:?}", CacheBuilder::default());
    assert!(shown.contains("path: \"./cache\""));
    assert!(shown.contains("dir_depth: 2"));
    assert!(shown.contains("track_access: false"));
    assert!(shown.contains("lru_size: 0"));
    assert!(shown.contains("rbuff_sz: 8192"));
    assert!(shown.contains("wbuff_sz: 8192"));
    let shown = format!("{:?}", CacheBuilder::new("elsewhere").read_write_buffer(7));
    assert!(shown.contains("path: \"elsewhere\""));
    assert!(shown.contains("rbuff_sz: 7"));
    assert!(shown.contains("wbuff_sz: 7"));
}

#[test]
fn metadata_iter_lists_every_record() {
    let (mut cache, mut disk) = fresh_cache("metadata_iter", plain);
    assert!(cache.metadata_iter().is_empty());

    write(&mut cache, &mut disk, b"one", b"1").unwrap();
    write(&mut cache, &mut disk, b"two", b"22").unwrap();
    write(&mut cache, &mut disk, b"three", b"333").unwrap();
    let mut seen: Vec<(Vec<u8>, u64)> = cache
        .metadata_iter()
        .into_iter()
        .map(|item| {
            let (key, meta) = item.unwrap();
            (key, meta.get_size())
        })
        .collect();
    seen.sort();
    assert_eq!(
        seen,
        vec![
            (b"one".to_vec(), 1),
            (b"three".to_vec(), 3),
            (b"two".to_vec(), 2)
        ]
    );
}
