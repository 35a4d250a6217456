//! The metadata store: one encoded record per live key, kept in a `sled` database.

use crate::error::ForcepError;
use crate::metadata::{
    accessed_record, decoded_record, fresh_record, now_since_epoch, storable, Metadata,
    MetadataView,
};
use vstd::prelude::*;

verus! {

/// `sled::Db`: an open database.
#[verifier::external_type_specification]
#[verifier::external_body]
pub struct ExSledDb(sled::Db);

/// A scan over the records of a store, as `sled::Tree::iter` starts it. It holds a
/// `sled::Iter`, whose item type the verifier does not take.
#[verifier::external_body]
pub struct RecordScan {
    inner: sled::Iter,
}

/// What the default tree of a database holds: the stored value of each key.
pub uninterp spec fn db_records(db: sled::Db) -> Map<Seq<u8>, Seq<u8>>;

/// The directory that a database was opened in.
pub uninterp spec fn db_path(db: sled::Db) -> Seq<char>;

/// The pairs that a scan has still to hand out, in the order in which it will.
pub uninterp spec fn scan_pending(scan: RecordScan) -> Seq<(Seq<u8>, Seq<u8>)>;

/// Whether `pairs` lists the records of a store: every pair is a record, no key comes
/// twice, and no record is left out.
pub open spec fn lists_records(
    pairs: Seq<(Seq<u8>, Seq<u8>)>,
    records: Map<Seq<u8>, Seq<u8>>,
) -> bool {
    &&& forall|i: int|
        0 <= i < pairs.len() ==> records.contains_key((#[trigger] pairs[i]).0)
            && records[pairs[i].0] == pairs[i].1
    &&& forall|i: int, j: int|
        0 <= i < j < pairs.len() ==> (#[trigger] pairs[i]).0 != (#[trigger] pairs[j]).0
    &&& forall|k: Seq<u8>| #[trigger]
        records.contains_key(k) ==> exists|i: int| 0 <= i < pairs.len() && (#[trigger] pairs[i]).0 == k
}

/// Calls `sled::open`: the database in the directory `path`. The records found depend
/// on what the directory held; nothing is promised of them.
#[verifier::external_body]
fn sled_open(path: &str) -> (r: Result<sled::Db, sled::Error>)
    ensures
        r matches Ok(db) ==> db_path(db) == path@,
{
    sled::open(path)
}

/// Calls `sled::Tree::get` on the default tree: on success, the value stored under the
/// key, if any.
#[verifier::external_body]
fn sled_get(db: &sled::Db, key: &[u8]) -> (r: Result<Option<Vec<u8>>, sled::Error>)
    ensures
        r matches Ok(found) ==> match found {
            Some(value) => db_records(*db).contains_key(key@) && db_records(*db)[key@] == value@,
            None => !db_records(*db).contains_key(key@),
        },
{
    db.get(key).map(|found| found.map(|value| value.to_vec()))
}

/// Calls `sled::Tree::insert` on the default tree: on success the key holds the new
/// value, every other key is as before, and the value that the key held before is
/// returned. The borrow is exclusive so that no other writer can stand between two
/// calls; after a failure nothing is promised of the records. The database stays
/// where it is.
#[verifier::external_body]
fn sled_insert(db: &mut sled::Db, key: &[u8], value: &[u8]) -> (r: Result<
    Option<Vec<u8>>,
    sled::Error,
>)
    ensures
        db_path(*final(db)) == db_path(*old(db)),
        r matches Ok(before) ==> db_records(*final(db)) == db_records(*old(db)).insert(
            key@,
            value@,
        ) && match before {
            Some(b) => db_records(*old(db)).contains_key(key@) && db_records(*old(db))[key@]
                == b@,
            None => !db_records(*old(db)).contains_key(key@),
        },
{
    db.insert(key, value).map(|before| before.map(|b| b.to_vec()))
}

/// Calls `sled::Tree::remove` on the default tree: on success the key is gone, every
/// other key is as before, and the value that the key held is returned. After a
/// failure nothing is promised of the records.
#[verifier::external_body]
fn sled_remove(db: &mut sled::Db, key: &[u8]) -> (r: Result<Option<Vec<u8>>, sled::Error>)
    ensures
        db_path(*final(db)) == db_path(*old(db)),
        r matches Ok(before) ==> db_records(*final(db)) == db_records(*old(db)).remove(key@)
            && match before {
            Some(b) => db_records(*old(db)).contains_key(key@) && db_records(*old(db))[key@]
                == b@,
            None => !db_records(*old(db)).contains_key(key@),
        },
{
    db.remove(key).map(|before| before.map(|b| b.to_vec()))
}

/// Calls `sled::Tree::iter` on the default tree: the scan will hand out every record
/// once. This holds as long as the store is not written while the scan runs; the one
/// caller keeps the store borrowed until the scan is over.
#[verifier::external_body]
fn sled_scan(db: &sled::Db) -> (scan: RecordScan)
    ensures
        lists_records(scan_pending(scan), db_records(*db)),
{
    RecordScan { inner: db.iter() }
}

/// Calls `next` on a scan. A pair that is handed out is the first pending one; `None`
/// comes only when none is pending; a failure may come at any point.
#[verifier::external_body]
fn sled_next(scan: &mut RecordScan) -> (r: Option<Result<(Vec<u8>, Vec<u8>), sled::Error>>)
    ensures
        match r {
            Some(Ok(pair)) => scan_pending(*old(scan)).len() > 0 && scan_pending(*old(scan))[0]
                == (pair.0@, pair.1@) && scan_pending(*final(scan)) == scan_pending(
                *old(scan),
            ).drop_first(),
            Some(Err(_)) => true,
            None => scan_pending(*old(scan)).len() == 0,
        },
{
    scan.inner.next().map(|item| item.map(|(key, value)| (key.to_vec(), value.to_vec())))
}

/// The record that a key has among stored records: `None` where the key holds nothing
/// or what it holds is no record.
pub open spec fn record_in(records: Map<Seq<u8>, Seq<u8>>, key: Seq<u8>) -> Option<MetadataView> {
    if records.contains_key(key) {
        decoded_record(records[key])
    } else {
        None
    }
}

/// The records after a record was stored under a key: the key holds bytes that stand
/// for the record, and every other key is as before.
pub open spec fn record_stored(
    before: Map<Seq<u8>, Seq<u8>>,
    key: Seq<u8>,
    record: MetadataView,
    after: Map<Seq<u8>, Seq<u8>>,
) -> bool {
    &&& after.contains_key(key)
    &&& decoded_record(after[key]) == Some(record)
    &&& after == before.insert(key, after[key])
}

/// The metadata store.
#[derive(Debug)]
pub struct MetaDb {
    db: sled::Db,
}

/// What a lookup in the store gives: the decoded record, `MetaNotFound` where the key
/// holds nothing, `MetaDe` where what it holds is no record, `MetaDb` where the store
/// failed.
pub open spec fn lookup_outcome(
    found: Result<Option<Vec<u8>>, sled::Error>,
    r: Result<Metadata, ForcepError>,
) -> bool {
    match found {
        Ok(Some(bytes)) => match decoded_record(bytes@) {
            Some(m) => r matches Ok(meta) && meta@ == m,
            None => r matches Err(e) && e is MetaDe,
        },
        Ok(None) => r matches Err(e) && e is MetaNotFound,
        Err(failure) => r matches Err(e) && e == ForcepError::MetaDb(failure),
    }
}

/// Turns what the store returned for a key into a record or an error.
pub fn record_from(found: Result<Option<Vec<u8>>, sled::Error>) -> (r: Result<
    Metadata,
    ForcepError,
>)
    ensures
        lookup_outcome(found, r),
{
    match found {
        Ok(Some(bytes)) => Metadata::deserialize(bytes.as_slice()),
        Ok(None) => Err(ForcepError::MetaNotFound),
        Err(failure) => Err(ForcepError::MetaDb(failure)),
    }
}

/// One item of a full scan against the stored pair it was made from.
pub open spec fn item_of(
    item: Result<(Vec<u8>, Metadata), ForcepError>,
    pair: (Seq<u8>, Seq<u8>),
) -> bool {
    match item {
        Ok(entry) => entry.0@ == pair.0 && decoded_record(pair.1) == Some(entry.1@),
        Err(e) => e is MetaDe && decoded_record(pair.1) is None,
    }
}

/// Turns one stored pair into an item of a full scan.
pub fn decode_item(key: Vec<u8>, value: Vec<u8>) -> (item: Result<
    (Vec<u8>, Metadata),
    ForcepError,
>)
    ensures
        item_of(item, (key@, value@)),
{
    match Metadata::deserialize(value.as_slice()) {
        Ok(meta) => Ok((key, meta)),
        Err(e) => Err(e),
    }
}

/// How many items of a scan stand for records: all of them, or all but the last where
/// the last is a failure of the store.
pub open spec fn scanned_count(items: Seq<Result<(Vec<u8>, Metadata), ForcepError>>) -> int {
    if items.len() > 0 && items.last() matches Err(ForcepError::MetaDb(_)) {
        items.len() - 1
    } else {
        items.len() as int
    }
}

/// Whether `items` is a scan of the records. A failure of the store can only be the
/// last item and ends the scan. The items before it stand, one for one, for the
/// beginning of a listing of the records: each with its key and its decoded record, or
/// a `MetaDe` error. Where the store did not fail, they stand for the whole listing.
pub open spec fn scan_of(
    items: Seq<Result<(Vec<u8>, Metadata), ForcepError>>,
    records: Map<Seq<u8>, Seq<u8>>,
) -> bool {
    &&& forall|i: int|
        0 <= i < items.len() - 1 ==> !((#[trigger] items[i]) matches Err(ForcepError::MetaDb(_)))
    &&& exists|pairs: Seq<(Seq<u8>, Seq<u8>)>|
        #![auto]
        lists_records(pairs, records) && scanned_count(items) <= pairs.len() && (scanned_count(
            items,
        ) == items.len() ==> pairs.len() == items.len()) && forall|i: int|
            0 <= i < scanned_count(items) ==> item_of(items[i], pairs[i])
}

impl MetaDb {
    /// The stored bytes of each key.
    pub closed spec fn records(&self) -> Map<Seq<u8>, Seq<u8>> {
        db_records(self.db)
    }

    /// The directory in which the store lies.
    pub closed spec fn location(&self) -> Seq<char> {
        db_path(self.db)
    }

    /// The record of a key: `None` where the key holds nothing or what it holds is no
    /// record.
    pub open spec fn record_of(&self, key: Seq<u8>) -> Option<MetadataView> {
        record_in(self.records(), key)
    }

    /// Opens the store in the directory `path`, creating it where there is none.
    pub fn new(path: &str) -> (r: Result<MetaDb, ForcepError>)
        ensures
            match r {
                Ok(store) => store.location() == path@,
                Err(e) => e is MetaDb,
            },
    {
        match sled_open(path) {
            Ok(db) => Ok(MetaDb { db }),
            Err(failure) => Err(ForcepError::MetaDb(failure)),
        }
    }

    /// Looks up the record of a key.
    pub fn get_metadata(&self, key: &[u8]) -> (r: Result<Metadata, ForcepError>)
        ensures
            match r {
                Ok(meta) => self.record_of(key@) == Some(meta@),
                Err(ForcepError::MetaNotFound) => !self.records().contains_key(key@),
                Err(ForcepError::MetaDe(_)) => self.records().contains_key(key@)
                    && self.record_of(key@) is None,
                Err(e) => e is MetaDb,
            },
    {
        record_from(sled_get(&self.db, key))
    }

    /// Stores a record under a key, over whatever the key held. Fails with `MetaSer`
    /// exactly where the record cannot be encoded, and then leaves the store as it is.
    pub fn store_record(&mut self, key: &[u8], meta: &Metadata) -> (r: Result<(), ForcepError>)
        ensures
            final(self).location() == old(self).location(),
            !storable(meta@) ==> r matches Err(ForcepError::MetaSer(_)),
            match r {
                Ok(_) => record_stored(old(self).records(), key@, meta@, final(self).records()),
                Err(ForcepError::MetaSer(_)) => !storable(meta@) && final(self).records() == old(self).records(),
                Err(e) => e is MetaDb,
            },
    {
        let bytes = match meta.serialize() {
            Ok(bytes) => bytes,
            Err(e) => {
                return Err(e);
            },
        };
        match sled_insert(&mut self.db, key, bytes.as_slice()) {
            Ok(_) => Ok(()),
            Err(failure) => Err(ForcepError::MetaDb(failure)),
        }
    }

    /// Stores a fresh record for `data` under `key`, over whatever the key held.
    pub fn insert_metadata_for(&mut self, key: &[u8], data: &[u8]) -> (r: Result<
        Metadata,
        ForcepError,
    >)
        ensures
            final(self).location() == old(self).location(),
            match r {
                Ok(meta) => meta@ == fresh_record(data@, meta@.last_modified) && record_stored(
                    old(self).records(),
                    key@,
                    meta@,
                    final(self).records(),
                ),
                Err(ForcepError::MetaSer(_)) => final(self).records() == old(self).records() && (
                exists|now: u64| !storable(#[trigger] fresh_record(data@, now))),
                Err(e) => e is MetaDb,
            },
    {
        let meta = Metadata::new(data);
        match self.store_record(key, &meta) {
            Ok(_) => Ok(meta),
            Err(e) => {
                assert(e is MetaSer ==> !storable(fresh_record(data@, meta@.last_modified)));
                Err(e)
            },
        }
    }

    /// Takes the record of a key out of the store and returns it.
    pub fn remove_metadata_for(&mut self, key: &[u8]) -> (r: Result<Metadata, ForcepError>)
        ensures
            final(self).location() == old(self).location(),
            match r {
                Ok(meta) => old(self).record_of(key@) == Some(meta@) && final(self).records()
                    == old(self).records().remove(key@),
                Err(ForcepError::MetaNotFound) => !old(self).records().contains_key(key@)
                    && final(self).records() == old(self).records(),
                Err(ForcepError::MetaDe(_)) => old(self).records().contains_key(key@) && old(self).record_of(key@) is None && final(self).records() == old(self).records().remove(key@),
                Err(e) => e is MetaDb,
            },
    {
        let removed = sled_remove(&mut self.db, key);
        proof {
            if removed matches Ok(None) {
                assert(final(self).records() =~= old(self).records());
            }
        }
        record_from(removed)
    }

    /// Counts one read of a key: sets the time of last access to now and adds one to
    /// the hit count, in the store, and returns the new record.
    pub fn track_access_for(&mut self, key: &[u8]) -> (r: Result<Metadata, ForcepError>)
        ensures
            final(self).location() == old(self).location(),
            match r {
                Ok(meta) => old(self).record_of(key@) matches Some(before) && meta@
                    == accessed_record(before, meta@.last_accessed) && record_stored(
                    old(self).records(),
                    key@,
                    meta@,
                    final(self).records(),
                ),
                Err(ForcepError::MetaNotFound) => !old(self).records().contains_key(key@)
                    && final(self).records() == old(self).records(),
                Err(ForcepError::MetaDe(_)) => old(self).records().contains_key(key@) && old(self).record_of(key@) is None && final(self).records() == old(self).records(),
                Err(ForcepError::MetaSer(_)) => old(self).record_of(key@) matches Some(before)
                    && final(self).records() == old(self).records() && (exists|now: u64|
                    !storable(#[trigger] accessed_record(before, now))),
                Err(e) => e is MetaDb,
            },
    {
        let before = match record_from(sled_get(&self.db, key)) {
            Ok(meta) => meta,
            Err(e) => {
                return Err(e);
            },
        };
        let meta = before.accessed_at(now_since_epoch());
        match self.store_record(key, &meta) {
            Ok(_) => Ok(meta),
            Err(e) => {
                assert(e is MetaSer ==> !storable(
                    accessed_record(before@, meta@.last_accessed),
                ));
                Err(e)
            },
        }
    }

    /// Every record of the store, in the order in which the store hands them out. A
    /// record that cannot be decoded gives a `MetaDe` item and the scan goes on; a
    /// failure of the store gives a `MetaDb` item and ends the scan.
    pub fn metadata_iter(&self) -> (items: Vec<Result<(Vec<u8>, Metadata), ForcepError>>)
        ensures
            scan_of(items@, self.records()),
    {
        let mut scan = sled_scan(&self.db);
        let ghost all = scan_pending(scan);
        let mut items: Vec<Result<(Vec<u8>, Metadata), ForcepError>> = Vec::new();
        loop
            invariant_except_break
                items@.len() + scan_pending(scan).len() == all.len(),
                scan_pending(scan) == all.skip(items@.len() as int),
                forall|i: int| 0 <= i < items@.len() ==> item_of(#[trigger] items@[i], all[i]),
            invariant
                lists_records(all, self.records()),
            ensures
                forall|i: int|
                    0 <= i < items@.len() - 1 ==> !((#[trigger] items@[i]) matches Err(
                        ForcepError::MetaDb(_),
                    )),
                scanned_count(items@) <= all.len(),
                scanned_count(items@) == items@.len() ==> items@.len() == all.len(),
                forall|i: int|
                    0 <= i < scanned_count(items@) ==> item_of(#[trigger] items@[i], all[i]),
            decreases scan_pending(scan).len(),
        {
            match sled_next(&mut scan) {
                Some(Ok(pair)) => {
                    let (key, value) = pair;
                    items.push(decode_item(key, value));
                    assert(all.skip(items@.len() - 1).drop_first() =~= all.skip(
                        items@.len() as int,
                    ));
                },
                Some(Err(failure)) => {
                    items.push(Err(ForcepError::MetaDb(failure)));
                    break ;
                },
                None => {
                    break ;
                },
            }
        }
        items
    }
}

} // verus!
