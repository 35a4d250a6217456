use forceps::meta_db::{decode_item, record_from, MetaDb};
use forceps::metadata::{millis_since_epoch, now_since_epoch, recorded_time};
use forceps::{ForcepError, Metadata};

const DATA: [u8; 4] = [0xDE, 0xAD, 0xBE, 0xEF];

fn create_db() -> Result<MetaDb, ForcepError> {
    const META_TESTDIR: &str = "/tmp/forceps-test/test-index";
    MetaDb::new(META_TESTDIR)
}

/// The stored form of the record {size 11, modified 1000, accessed 2000, 3 hits,
/// digest of "Hello World"}.
const RECORD: [u8; 213] = [
    213, 0, 0, 0, 18, 115, 105, 122, 101, 0, 11, 0, 0, 0, 0, 0, 0, 0, 18, 108, 97, 115, 116, 95,
    109, 111, 100, 105, 102, 105, 101, 100, 0, 232, 3, 0, 0, 0, 0, 0, 0, 18, 108, 97, 115, 116,
    95, 97, 99, 99, 101, 115, 115, 101, 100, 0, 208, 7, 0, 0, 0, 0, 0, 0, 18, 104, 105, 116, 115,
    0, 3, 0, 0, 0, 0, 0, 0, 0, 4, 105, 110, 116, 101, 103, 114, 105, 116, 121, 0, 123, 0, 0, 0,
    16, 48, 0, 177, 0, 0, 0, 16, 49, 0, 10, 0, 0, 0, 16, 50, 0, 141, 0, 0, 0, 16, 51, 0, 177, 0,
    0, 0, 16, 52, 0, 100, 0, 0, 0, 16, 53, 0, 224, 0, 0, 0, 16, 54, 0, 117, 0, 0, 0, 16, 55, 0,
    65, 0, 0, 0, 16, 56, 0, 5, 0, 0, 0, 16, 57, 0, 183, 0, 0, 0, 16, 49, 48, 0, 169, 0, 0, 0, 16,
    49, 49, 0, 155, 0, 0, 0, 16, 49, 50, 0, 231, 0, 0, 0, 16, 49, 51, 0, 46, 0, 0, 0, 16, 49, 52,
    0, 63, 0, 0, 0, 16, 49, 53, 0, 229, 0, 0, 0, 0, 0,
];

const HELLO_DIGEST: [u8; 16] = [
    177, 10, 141, 177, 100, 224, 117, 65, 5, 183, 169, 155, 231, 46, 63, 229,
];

fn sample() -> Metadata {
    Metadata::new_at(b"Hello World", 1000)
        .accessed_at(1500)
        .accessed_at(1700)
        .accessed_at(2000)
}

#[test]
fn create_metadb() {
    create_db().unwrap();
}

#[test]
fn db_read_write() {
    let mut db = create_db().unwrap();
    db.insert_metadata_for(&DATA, &DATA).unwrap();
    let meta = db.get_metadata(&DATA).unwrap();
    assert_eq!(meta.get_size(), DATA.len() as u64);
}

#[test]
fn check_integrity() {
    let mut db = create_db().unwrap();
    let meta = db.insert_metadata_for(&DATA, &DATA).unwrap();
    assert!(meta.check_integrity_of(&DATA));
}

#[test]
fn last_modified() {
    let mut db = create_db().unwrap();
    let meta = db.insert_metadata_for(&DATA, &DATA).unwrap();
    // make sure last-modified date is within last second
    assert!(
        meta.get_last_modified()
            .unwrap()
            .elapsed()
            .unwrap()
            .as_secs()
            == 0
    );
}

#[test]
fn metadata_ser_de() {
    let mut db = create_db().unwrap();
    let meta = db.insert_metadata_for(&DATA, &DATA).unwrap();
    let ser_bytes = meta.serialize().unwrap();
    let de = Metadata::deserialize(&ser_bytes).unwrap();
    assert_eq!(meta.get_integrity(), de.get_integrity());
}

#[test]
fn fresh_record_fields() {
    let meta = Metadata::new_at(b"Hello World", 1234);
    assert_eq!(meta.get_size(), 11);
    assert_eq!(meta.get_last_modified_raw(), 1234);
    assert_eq!(meta.get_last_accessed_raw(), 1234);
    assert_eq!(meta.get_hits(), 0);
    assert_eq!(meta.get_integrity(), &HELLO_DIGEST);
    assert_eq!(Metadata::new_at(b"", 5).get_size(), 0);
}

#[test]
fn new_record_is_stamped_now() {
    let before = now_since_epoch();
    let meta = Metadata::new(b"Hello World");
    let after = now_since_epoch();
    assert!(before <= meta.get_last_modified_raw() && meta.get_last_modified_raw() <= after);
    assert_eq!(meta.get_last_accessed_raw(), meta.get_last_modified_raw());
    assert_eq!(meta.get_hits(), 0);
    assert_eq!(meta.get_size(), 11);
}

#[test]
fn access_adds_one_hit() {
    let meta = Metadata::new_at(b"abc", 10).accessed_at(25);
    assert_eq!(meta.get_hits(), 1);
    assert_eq!(meta.get_last_accessed_raw(), 25);
    assert_eq!(meta.get_last_modified_raw(), 10);
    assert_eq!(meta.get_size(), 3);
    assert_eq!(meta.accessed_at(30).accessed_at(31).get_hits(), 3);
}

#[test]
fn clock_reading_becomes_a_timestamp() {
    assert_eq!(millis_since_epoch(None), 0);
    assert_eq!(millis_since_epoch(Some(0)), 0);
    assert_eq!(millis_since_epoch(Some(1_700_000_000_000)), 1_700_000_000_000);
    assert_eq!(millis_since_epoch(Some(u64::MAX as u128)), u64::MAX);
    assert_eq!(millis_since_epoch(Some(u64::MAX as u128 + 6)), 5);
}

#[test]
fn times_of_a_record() {
    let meta = Metadata::new_at(b"abc", 1_000).accessed_at(61_000);
    let epoch = std::time::UNIX_EPOCH;
    assert_eq!(
        meta.get_last_modified().unwrap().duration_since(epoch).unwrap().as_millis(),
        1_000
    );
    assert_eq!(
        meta.get_last_acccessed().unwrap().duration_since(epoch).unwrap().as_millis(),
        61_000
    );
    let unset = Metadata::new_at(b"abc", 0);
    assert!(unset.get_last_modified().is_none());
    assert!(unset.get_last_acccessed().is_none());
}

#[test]
fn integrity_is_the_md5_digest() {
    let meta = Metadata::new_at(&DATA, 1);
    assert_eq!(
        meta.get_integrity(),
        &[0x2f, 0x24, 0x92, 0x30, 0xa8, 0xe7, 0xc2, 0xbf, 0x60, 0x05, 0xcc, 0xd2, 0x67, 0x92, 0x59, 0xec]
    );
    assert!(meta.check_integrity_of(&DATA));
    assert!(!meta.check_integrity_of(&[0xDE, 0xAD, 0xBE]));
}

#[test]
fn stored_form_of_a_record() {
    assert_eq!(sample().serialize().unwrap(), RECORD.to_vec());
}

#[test]
fn stored_form_is_read_back() {
    let meta = Metadata::deserialize(&RECORD).unwrap();
    assert_eq!(meta.get_size(), 11);
    assert_eq!(meta.get_last_modified_raw(), 1000);
    assert_eq!(meta.get_last_accessed_raw(), 2000);
    assert_eq!(meta.get_hits(), 3);
    assert_eq!(meta.get_integrity(), &HELLO_DIGEST);
}

#[test]
fn counters_beyond_the_signed_range_cannot_be_stored() {
    let late = Metadata::new_at(b"abc", u64::MAX);
    assert!(matches!(late.serialize(), Err(ForcepError::MetaSer(_))));
    let edge = Metadata::new_at(b"abc", i64::MAX as u64);
    assert_eq!(
        Metadata::deserialize(&edge.serialize().unwrap()).unwrap().get_last_modified_raw(),
        i64::MAX as u64
    );
    let over = Metadata::new_at(b"abc", 1).accessed_at(i64::MAX as u64 + 1);
    assert!(matches!(over.serialize(), Err(ForcepError::MetaSer(_))));
}

#[test]
fn bytes_that_are_no_record_are_refused() {
    assert!(matches!(Metadata::deserialize(&[]), Err(ForcepError::MetaDe(_))));
    assert!(matches!(Metadata::deserialize(&[1, 2, 3]), Err(ForcepError::MetaDe(_))));
    // an empty document: every field is missing
    assert!(matches!(
        Metadata::deserialize(&[5, 0, 0, 0, 0]),
        Err(ForcepError::MetaDe(_))
    ));
    // the record cut short
    assert!(matches!(
        Metadata::deserialize(&RECORD[..100]),
        Err(ForcepError::MetaDe(_))
    ));
    // a negative size
    let mut negative = RECORD;
    negative[17] = 0x80;
    assert!(matches!(Metadata::deserialize(&negative), Err(ForcepError::MetaDe(_))));
    // a digest value that is no byte
    let mut wide = RECORD;
    wide[98] = 1;
    assert!(matches!(Metadata::deserialize(&wide), Err(ForcepError::MetaDe(_))));
}

#[test]
fn lookup_outcomes() {
    assert_eq!(record_from(Ok(Some(RECORD.to_vec()))).unwrap().get_hits(), 3);
    assert!(matches!(record_from(Ok(None)), Err(ForcepError::MetaNotFound)));
    assert!(matches!(
        record_from(Ok(Some(vec![0, 1, 2]))),
        Err(ForcepError::MetaDe(_))
    ));
    assert!(matches!(
        record_from(Err(sled::Error::Unsupported("test".to_string()))),
        Err(ForcepError::MetaDb(_))
    ));
}

#[test]
fn scan_items() {
    let (key, meta) = decode_item(b"key".to_vec(), RECORD.to_vec()).unwrap();
    assert_eq!(key, b"key".to_vec());
    assert_eq!(meta.get_size(), 11);
    assert!(matches!(
        decode_item(b"key".to_vec(), vec![9, 9]),
        Err(ForcepError::MetaDe(_))
    ));
}

#[test]
fn store_keeps_one_record_for_each_key() {
    let mut db = MetaDb::new("/tmp/forceps-test/store-records").unwrap();
    for item in db.metadata_iter() {
        db.remove_metadata_for(&item.unwrap().0).unwrap();
    }
    assert!(db.metadata_iter().is_empty());
    assert!(matches!(db.get_metadata(b"a"), Err(ForcepError::MetaNotFound)));
    assert!(matches!(db.remove_metadata_for(b"a"), Err(ForcepError::MetaNotFound)));
    assert!(matches!(db.track_access_for(b"a"), Err(ForcepError::MetaNotFound)));

    db.insert_metadata_for(b"a", b"1").unwrap();
    db.insert_metadata_for(b"b", b"22").unwrap();
    db.insert_metadata_for(b"a", b"333").unwrap();
    assert_eq!(db.get_metadata(b"a").unwrap().get_size(), 3);
    assert_eq!(db.get_metadata(b"b").unwrap().get_size(), 2);
    assert_eq!(db.metadata_iter().len(), 2);

    let counted = db.track_access_for(b"b").unwrap();
    assert_eq!(counted.get_hits(), 1);
    assert_eq!(db.track_access_for(b"b").unwrap().get_hits(), 2);
    let stored = db.get_metadata(b"b").unwrap();
    assert_eq!(stored.get_hits(), 2);
    assert_eq!(stored.get_size(), 2);
    assert!(stored.get_last_accessed_raw() >= stored.get_last_modified_raw());
    assert_eq!(db.get_metadata(b"a").unwrap().get_hits(), 0);

    let removed = db.remove_metadata_for(b"b").unwrap();
    assert_eq!(removed.get_hits(), 2);
    assert!(matches!(db.get_metadata(b"b"), Err(ForcepError::MetaNotFound)));
    assert_eq!(db.metadata_iter().len(), 1);
    assert_eq!(db.get_metadata(b"a").unwrap().get_size(), 3);
}

#[test]
fn store_that_cannot_be_opened() {
    // a path below a file that is no directory
    assert!(matches!(
        MetaDb::new("/dev/null/index"),
        Err(ForcepError::MetaDb(_))
    ));
}

#[test]
fn store_is_found_again_in_its_directory() {
    let path = "/tmp/forceps-test/store-reopened";
    {
        let mut db = MetaDb::new(path).unwrap();
        db.insert_metadata_for(b"kept", b"12345").unwrap();
    }
    let db = MetaDb::new(path).unwrap();
    assert_eq!(db.get_metadata(b"kept").unwrap().get_size(), 5);

    let mut elsewhere = MetaDb::new("/tmp/forceps-test/store-elsewhere").unwrap();
    for item in elsewhere.metadata_iter() {
        elsewhere.remove_metadata_for(&item.unwrap().0).unwrap();
    }
    assert!(matches!(
        elsewhere.get_metadata(b"kept"),
        Err(ForcepError::MetaNotFound)
    ));
}

#[test]
fn stamp_becomes_a_time() {
    let point = std::time::UNIX_EPOCH + std::time::Duration::from_millis(5);
    assert_eq!(recorded_time(5, Some(point)), Some(point));
    assert_eq!(recorded_time(u64::MAX, Some(point)), Some(point));
    assert_eq!(recorded_time(0, Some(point)), None);
    assert_eq!(recorded_time(5, None), None);
    assert_eq!(recorded_time(0, None), None);
}

#[test]
fn record_within_the_signed_range_always_encodes() {
    let edge = Metadata::new_at(&[7u8; 300], i64::MAX as u64).accessed_at(i64::MAX as u64);
    let read_back = Metadata::deserialize(&edge.serialize().unwrap()).unwrap();
    assert_eq!(read_back.get_size(), 300);
    assert_eq!(read_back.get_hits(), 1);
    assert_eq!(read_back.get_last_accessed_raw(), i64::MAX as u64);
    assert_eq!(read_back.get_integrity(), edge.get_integrity());
    assert!(Metadata::new_at(b"", 0).serialize().is_ok());
}

#[test]
fn times_far_ahead_are_either_given_or_withheld() {
    // what the platform makes of a stamp is the same each time
    let far = Metadata::new_at(b"", u64::MAX);
    assert_eq!(far.get_last_modified(), far.get_last_modified());
    assert_eq!(far.get_last_modified(), far.get_last_acccessed());
    if let Some(time) = far.get_last_modified() {
        let gone = time.duration_since(std::time::UNIX_EPOCH).unwrap();
        assert_eq!(gone.as_millis(), u64::MAX as u128);
    }
}

#[test]
fn record_that_cannot_be_encoded_is_not_stored() {
    let mut db = MetaDb::new("/tmp/forceps-test/store-given-record").unwrap();
    for item in db.metadata_iter() {
        db.remove_metadata_for(&item.unwrap().0).unwrap();
    }
    let good = Metadata::new_at(b"abc", 1000).accessed_at(2000);
    db.store_record(b"k", &good).unwrap();
    let stored = db.get_metadata(b"k").unwrap();
    assert_eq!(stored.get_size(), 3);
    assert_eq!(stored.get_last_modified_raw(), 1000);
    assert_eq!(stored.get_last_accessed_raw(), 2000);
    assert_eq!(stored.get_hits(), 1);

    let late = Metadata::new_at(b"abcd", u64::MAX);
    assert!(matches!(
        db.store_record(b"k", &late),
        Err(ForcepError::MetaSer(_))
    ));
    // the record that was there is still there
    assert_eq!(db.get_metadata(b"k").unwrap().get_size(), 3);
    assert!(matches!(
        db.store_record(b"other", &late),
        Err(ForcepError::MetaSer(_))
    ));
    assert!(matches!(db.get_metadata(b"other"), Err(ForcepError::MetaNotFound)));
}
