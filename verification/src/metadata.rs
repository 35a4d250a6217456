//! Per-entry metadata: size, timestamps, hit count and content digest, and the
//! document encoding under which a record is stored.

use crate::error::ForcepError;
use vstd::prelude::*;
use vstd::string::*;

verus! {

/// The sixteen bytes of an MD5 digest.
pub type Md5Bytes = [u8; 16];

/// `std::time::SystemTime`, carried through as it is.
#[verifier::external_type_specification]
#[verifier::external_body]
pub struct ExSystemTime(std::time::SystemTime);

/// The MD5 digest of a byte string, as `md5::compute` returns it.
pub uninterp spec fn md5_digest(data: Seq<u8>) -> Seq<u8>;

/// `bson::Document`: an ordered map from field names to values.
#[verifier::external_type_specification]
#[verifier::external_body]
pub struct ExDocument(bson::Document);

/// The fields of a document that hold a 64-bit integer, by name.
pub uninterp spec fn document_longs(doc: bson::Document) -> Map<Seq<char>, i64>;

/// The fields of a document that hold an array of 32-bit integers and nothing else,
/// by name.
pub uninterp spec fn document_lists(doc: bson::Document) -> Map<Seq<char>, Seq<i32>>;

/// The names of all fields of a document, whatever they hold.
pub uninterp spec fn document_names(doc: bson::Document) -> Set<Seq<char>>;

/// The span of time that `Duration::from_millis` makes of a number of milliseconds.
pub uninterp spec fn millis_duration(millis: u64) -> core::time::Duration;

/// The point in time that `SystemTime::checked_add` finds a span of time after the Unix
/// epoch, on the platform that the library is built for; `None` where that platform
/// cannot represent the point.
pub uninterp spec fn time_after_epoch(elapsed: core::time::Duration) -> Option<
    std::time::SystemTime,
>;

/// What `bson::Document::from_reader` finds in a byte string: the two kinds of fields
/// of the document that it reads, or `None` where the bytes are no document.
pub uninterp spec fn document_read(bytes: Seq<u8>) -> Option<
    (Map<Seq<char>, i64>, Map<Seq<char>, Seq<i32>>),
>;

/// Calls `md5::compute` and hands the digest out as an array. The digest is a function
/// of the data alone; which function is not stated here.
#[verifier::external_body]
pub(crate) fn md5_compute(data: &[u8]) -> (digest: [u8; 16])
    ensures
        digest@ == md5_digest(data@),
{
    md5::compute(data).into()
}

/// Calls `std::time::SystemTime::now`. Nothing is promised of the clock.
#[verifier::external_body]
fn system_now() -> std::time::SystemTime {
    std::time::SystemTime::now()
}

/// Calls `SystemTime::duration_since` with the Unix epoch; `None` where the time lies
/// before the epoch.
#[verifier::external_body]
fn since_unix_epoch(time: &std::time::SystemTime) -> Option<core::time::Duration> {
    time.duration_since(std::time::UNIX_EPOCH).ok()
}

/// Calls `Duration::as_millis`.
#[verifier::external_body]
fn duration_millis(elapsed: &core::time::Duration) -> u128 {
    elapsed.as_millis()
}

/// Calls `Duration::from_millis`: the span is a function of the number alone.
#[verifier::external_body]
fn duration_from_millis(millis: u64) -> (elapsed: core::time::Duration)
    ensures
        elapsed == millis_duration(millis),
{
    core::time::Duration::from_millis(millis)
}

/// Calls `SystemTime::checked_add` on the Unix epoch: the point is a function of the
/// span alone; `None` where the platform cannot represent it.
#[verifier::external_body]
fn unix_epoch_plus(elapsed: core::time::Duration) -> (point: Option<std::time::SystemTime>)
    ensures
        point == time_after_epoch(elapsed),
{
    std::time::UNIX_EPOCH.checked_add(elapsed)
}

/// No field that holds a 64-bit integer.
pub open spec fn no_longs() -> Map<Seq<char>, i64> {
    Map::empty()
}

/// No field that holds an array.
pub open spec fn no_lists() -> Map<Seq<char>, Seq<i32>> {
    Map::empty()
}

/// The five field names of a record.
pub open spec fn is_record_name(name: Seq<char>) -> bool {
    ||| name == "size"@
    ||| name == "last_modified"@
    ||| name == "last_accessed"@
    ||| name == "hits"@
    ||| name == "integrity"@
}

/// A document as the library builds it: every field has one of the five names of a
/// record and holds a 64-bit integer or an array of at most sixteen 32-bit integers.
pub open spec fn is_record_document(doc: bson::Document) -> bool {
    &&& forall|name: Seq<char>| #[trigger]
        document_names(doc).contains(name) ==> is_record_name(name)
    &&& document_names(doc) == document_longs(doc).dom().union(document_lists(doc).dom())
    &&& forall|name: Seq<char>| #[trigger]
        document_lists(doc).contains_key(name) ==> document_lists(doc)[name].len() <= 16
}

/// `bson::Document::new` makes a document without fields.
#[verifier::external_body]
fn document_new() -> (doc: bson::Document)
    ensures
        document_names(doc) == Set::<Seq<char>>::empty(),
        document_longs(doc) == no_longs(),
        document_lists(doc) == no_lists(),
{
    bson::Document::new()
}

/// `bson::Document::insert` with a 64-bit integer, under one of the five names of a
/// record: the field holds the value, whatever it held before.
#[verifier::external_body]
fn document_put_long(doc: &mut bson::Document, name: &str, value: i64)
    requires
        is_record_name(name@),
    ensures
        document_names(*final(doc)) == document_names(*old(doc)).insert(name@),
        document_longs(*final(doc)) == document_longs(*old(doc)).insert(name@, value),
        document_lists(*final(doc)) == document_lists(*old(doc)).remove(name@),
{
    doc.insert(name, bson::Bson::Int64(value));
}

/// `bson::Document::insert` with an array of 32-bit integers, under one of the five
/// names of a record: the field holds the array, whatever it held before.
#[verifier::external_body]
fn document_put_list(doc: &mut bson::Document, name: &str, list: &Vec<i32>)
    requires
        is_record_name(name@),
    ensures
        document_names(*final(doc)) == document_names(*old(doc)).insert(name@),
        document_lists(*final(doc)) == document_lists(*old(doc)).insert(name@, list@),
        document_longs(*final(doc)) == document_longs(*old(doc)).remove(name@),
{
    doc.insert(name, list.iter().map(|v| bson::Bson::Int32(*v)).collect::<Vec<bson::Bson>>());
}

/// `bson::Document::get_i64`: the value of a field that holds a 64-bit integer.
#[verifier::external_body]
fn document_long(doc: &bson::Document, name: &str) -> (r: Option<i64>)
    ensures
        match r {
            Some(value) => document_longs(*doc).contains_key(name@) && document_longs(*doc)[name@]
                == value,
            None => !document_longs(*doc).contains_key(name@),
        },
{
    doc.get_i64(name).ok()
}

/// `bson::Document::get_array`, each value taken out with `Bson::as_i32`: the value of
/// a field that holds an array of 32-bit integers and nothing else.
#[verifier::external_body]
fn document_list(doc: &bson::Document, name: &str) -> (r: Option<Vec<i32>>)
    ensures
        match r {
            Some(list) => document_lists(*doc).contains_key(name@) && document_lists(*doc)[name@]
                == list@,
            None => !document_lists(*doc).contains_key(name@),
        },
{
    doc.get_array(name).ok().and_then(|list| list.iter().map(|v| v.as_i32()).collect())
}

/// `bson::Document::to_writer` into a vector, for a document as the library builds
/// it. Such a document always encodes: its names hold no NUL, its values are integers,
/// and writing to a vector does not fail. What was written reads back as a document
/// with the same fields: on such documents `from_reader` inverts `to_writer`.
#[verifier::external_body]
fn document_to_bytes(doc: &bson::Document) -> (r: Result<Vec<u8>, bson::ser::Error>)
    requires
        is_record_document(*doc),
    ensures
        r is Ok,
        r matches Ok(bytes) ==> document_read(bytes@) == Some(
            (document_longs(*doc), document_lists(*doc)),
        ),
{
    let mut bytes = Vec::new();
    doc.to_writer(&mut bytes)?;
    Ok(bytes)
}

/// `bson::Document::from_reader` on a slice: the document that the bytes stand for, a
/// function of the bytes alone.
#[verifier::external_body]
fn document_from_bytes(bytes: &[u8]) -> (r: Result<bson::Document, bson::de::Error>)
    ensures
        match r {
            Ok(doc) => document_read(bytes@) == Some((document_longs(doc), document_lists(doc))),
            Err(_) => document_read(bytes@) is None,
        },
{
    bson::Document::from_reader(bytes)
}

/// Makes the error that `bson` reports for an unsigned value above `i64::MAX`.
#[verifier::external_body]
fn unsigned_out_of_range(value: u64) -> bson::ser::Error {
    bson::ser::Error::UnsignedIntegerExceededRange(value)
}

/// Makes a `bson` decoding error with the given message, through `serde::de::Error::custom`.
#[verifier::external_body]
fn invalid_record(message: &str) -> bson::de::Error {
    serde::de::Error::custom(message)
}

/// What is recorded about one entry of the cache.
#[derive(Debug, Clone, Copy)]
pub struct Metadata {
    /// Size in bytes of the entry.
    size: u64,
    /// When the entry was last written, in milliseconds since the Unix epoch.
    last_modified: u64,
    /// When the entry was last read, in milliseconds since the Unix epoch.
    last_accessed: u64,
    /// How many times the entry has been read.
    hits: u64,
    /// MD5 digest of the entry's bytes.
    integrity: [u8; 16],
}

/// The mathematical content of a [`Metadata`] record.
pub struct MetadataView {
    pub size: u64,
    pub last_modified: u64,
    pub last_accessed: u64,
    pub hits: u64,
    pub integrity: Seq<u8>,
}

impl View for Metadata {
    type V = MetadataView;

    closed spec fn view(&self) -> MetadataView {
        MetadataView {
            size: self.size,
            last_modified: self.last_modified,
            last_accessed: self.last_accessed,
            hits: self.hits,
            integrity: self.integrity@,
        }
    }
}

/// The record of an entry just written: both timestamps are the time of writing and no
/// read has been counted.
pub open spec fn fresh_record(data: Seq<u8>, now: u64) -> MetadataView {
    MetadataView {
        size: data.len() as u64,
        last_modified: now,
        last_accessed: now,
        hits: 0,
        integrity: md5_digest(data),
    }
}

/// The record after one more read at time `now`. The hit count stops at `u64::MAX`.
pub open spec fn accessed_record(m: MetadataView, now: u64) -> MetadataView {
    MetadataView {
        last_accessed: now,
        hits: if m.hits < u64::MAX { (m.hits + 1) as u64 } else { m.hits },
        ..m
    }
}

/// The clock reading in milliseconds since the Unix epoch, reduced to 64 bits; 0 where
/// the clock stands before the epoch.
pub open spec fn epoch_millis(elapsed: Option<u128>) -> u64 {
    match elapsed {
        Some(millis) => (millis % 0x1_0000_0000_0000_0000) as u64,
        None => 0,
    }
}

/// A digest as the list of 32-bit values under which the document holds it.
pub open spec fn widened(integrity: Seq<u8>) -> Seq<i32> {
    Seq::new(integrity.len(), |i: int| integrity[i] as i32)
}

/// A list of 32-bit values as a digest.
pub open spec fn narrowed(integrity: Seq<i32>) -> Seq<u8> {
    Seq::new(integrity.len(), |i: int| integrity[i] as u8)
}

/// Whether the document encoding can hold the record: its four counters are stored as
/// signed 64-bit integers.
pub open spec fn storable(m: MetadataView) -> bool {
    &&& m.size <= i64::MAX
    &&& m.last_modified <= i64::MAX
    &&& m.last_accessed <= i64::MAX
    &&& m.hits <= i64::MAX
}

/// Whether the fields of a document make a record: the four counters are there and
/// none is negative, and the digest is there as sixteen values that each fit a byte.
pub open spec fn fields_valid(longs: Map<Seq<char>, i64>, lists: Map<Seq<char>, Seq<i32>>) -> bool {
    &&& longs.contains_key("size"@) && longs["size"@] >= 0
    &&& longs.contains_key("last_modified"@) && longs["last_modified"@] >= 0
    &&& longs.contains_key("last_accessed"@) && longs["last_accessed"@] >= 0
    &&& longs.contains_key("hits"@) && longs["hits"@] >= 0
    &&& lists.contains_key("integrity"@)
    &&& lists["integrity"@].len() == 16
    &&& forall|i: int| 0 <= i < 16 ==> 0 <= #[trigger] lists["integrity"@][i] <= 255
}

/// The record that a byte string stands for, if any: the bytes are a document whose
/// fields `size`, `last_modified`, `last_accessed`, `hits` and `integrity` make a record.
pub open spec fn decoded_record(bytes: Seq<u8>) -> Option<MetadataView> {
    match document_read(bytes) {
        Some(fields) => if fields_valid(fields.0, fields.1) {
            Some(
                MetadataView {
                    size: fields.0["size"@] as u64,
                    last_modified: fields.0["last_modified"@] as u64,
                    last_accessed: fields.0["last_accessed"@] as u64,
                    hits: fields.0["hits"@] as u64,
                    integrity: narrowed(fields.1["integrity"@]),
                },
            )
        } else {
            None
        },
        None => None,
    }
}

/// The five field names differ from one another.
pub proof fn lemma_field_names_differ()
    ensures
        "size"@ != "last_modified"@,
        "size"@ != "last_accessed"@,
        "size"@ != "hits"@,
        "size"@ != "integrity"@,
        "last_modified"@ != "last_accessed"@,
        "last_modified"@ != "hits"@,
        "last_modified"@ != "integrity"@,
        "last_accessed"@ != "hits"@,
        "last_accessed"@ != "integrity"@,
        "hits"@ != "integrity"@,
{
    reveal_strlit("size");
    reveal_strlit("last_modified");
    reveal_strlit("last_accessed");
    reveal_strlit("hits");
    reveal_strlit("integrity");
    assert("size"@[0] == 's');
    assert("hits"@[0] == 'h');
    assert("last_modified"@[5] == 'm');
    assert("last_accessed"@[5] == 'a');
    assert("size"@.len() == 4);
    assert("hits"@.len() == 4);
    assert("integrity"@.len() == 9);
    assert("last_modified"@.len() == 13);
    assert("last_accessed"@.len() == 13);
}

/// Turns the outcome of reading the clock into a timestamp.
pub fn millis_since_epoch(elapsed: Option<u128>) -> (now: u64)
    ensures
        now == epoch_millis(elapsed),
{
    match elapsed {
        Some(millis) => (millis % 0x1_0000_0000_0000_0000) as u64,
        None => 0,
    }
}

/// Milliseconds from the Unix epoch to now, as the system clock gives them.
pub fn now_since_epoch() -> u64 {
    let now = system_now();
    match since_unix_epoch(&now) {
        Some(elapsed) => millis_since_epoch(Some(duration_millis(&elapsed))),
        None => millis_since_epoch(None),
    }
}

/// The point in time that a stamp stands for: none where the stamp is 0, which means
/// that no time is recorded; otherwise the point that many milliseconds after the Unix
/// epoch, where the platform can represent it.
pub open spec fn stamp_time(millis: u64) -> Option<std::time::SystemTime> {
    if millis == 0 {
        None
    } else {
        time_after_epoch(millis_duration(millis))
    }
}

/// The point in time that a stamp stands for: none where the stamp is 0, which means
/// that no time is recorded; otherwise `point`, which is what the platform made of the
/// stamp, and is `None` where it cannot represent that time.
pub fn recorded_time(millis: u64, point: Option<std::time::SystemTime>) -> (time: Option<
    std::time::SystemTime,
>)
    ensures
        time == (if millis == 0 {
            None
        } else {
            point
        }),
{
    if millis == 0 {
        None
    } else {
        point
    }
}

/// Turns a digest into the list of 32-bit values under which the document holds it.
fn widen(integrity: &[u8; 16]) -> (list: Vec<i32>)
    ensures
        list@ == widened(integrity@),
{
    let mut list: Vec<i32> = Vec::new();
    let mut i: usize = 0;
    while i < 16
        invariant
            i <= 16,
            list@.len() == i,
            forall|j: int| 0 <= j < i ==> list@[j] == integrity@[j] as i32,
        decreases 16 - i,
    {
        list.push(integrity[i] as i32);
        i += 1;
    }
    assert(list@ =~= widened(integrity@));
    list
}

/// Turns a list of sixteen byte-sized values back into a digest; `None` for any other
/// list.
fn narrow(list: &Vec<i32>) -> (r: Option<[u8; 16]>)
    ensures
        match r {
            Some(integrity) => list@.len() == 16 && (forall|i: int|
                0 <= i < 16 ==> 0 <= #[trigger] list@[i] <= 255) && integrity@ == narrowed(list@),
            None => !(list@.len() == 16 && forall|i: int|
                0 <= i < 16 ==> 0 <= #[trigger] list@[i] <= 255),
        },
{
    if list.len() != 16 {
        return None;
    }
    let mut integrity: [u8; 16] = [0u8; 16];
    let mut i: usize = 0;
    while i < 16
        invariant
            i <= 16,
            list@.len() == 16,
            forall|j: int| 0 <= j < i ==> 0 <= #[trigger] list@[j] <= 255,
            forall|j: int| 0 <= j < i ==> integrity@[j] == list@[j] as u8,
        decreases 16 - i,
    {
        let value: i32 = list[i];
        if value < 0 || value > 255 {
            return None;
        }
        integrity[i] = value as u8;
        i += 1;
    }
    assert(integrity@ =~= narrowed(list@));
    Some(integrity)
}

impl Metadata {
    /// The record of an entry whose bytes are `data`, written at time `now`.
    pub fn new_at(data: &[u8], now: u64) -> (meta: Metadata)
        ensures
            meta@ == fresh_record(data@, now),
    {
        Metadata {
            size: data.len() as u64,
            last_modified: now,
            last_accessed: now,
            hits: 0,
            integrity: md5_compute(data),
        }
    }

    /// The record of an entry whose bytes are `data`, written now.
    pub fn new(data: &[u8]) -> (meta: Metadata)
        ensures
            meta@ == fresh_record(data@, meta@.last_modified),
    {
        Metadata::new_at(data, now_since_epoch())
    }

    /// The record after one more read at time `now`.
    pub fn accessed_at(&self, now: u64) -> (meta: Metadata)
        ensures
            meta@ == accessed_record(self@, now),
    {
        Metadata {
            size: self.size,
            last_modified: self.last_modified,
            last_accessed: now,
            hits: if self.hits < u64::MAX {
                self.hits + 1
            } else {
                self.hits
            },
            integrity: self.integrity,
        }
    }

    /// Encodes the record as a document. Fails with `MetaSer` exactly where a counter
    /// is above `i64::MAX`.
    pub fn serialize(&self) -> (r: Result<Vec<u8>, ForcepError>)
        ensures
            match r {
                Ok(bytes) => storable(self@) && decoded_record(bytes@) == Some(self@),
                Err(e) => e is MetaSer && !storable(self@),
            },
    {
        if self.size > i64::MAX as u64 {
            return Err(ForcepError::MetaSer(unsigned_out_of_range(self.size)));
        }
        if self.last_modified > i64::MAX as u64 {
            return Err(ForcepError::MetaSer(unsigned_out_of_range(self.last_modified)));
        }
        if self.last_accessed > i64::MAX as u64 {
            return Err(ForcepError::MetaSer(unsigned_out_of_range(self.last_accessed)));
        }
        if self.hits > i64::MAX as u64 {
            return Err(ForcepError::MetaSer(unsigned_out_of_range(self.hits)));
        }
        let list = widen(&self.integrity);
        let mut doc = document_new();
        document_put_long(&mut doc, "size", self.size as i64);
        document_put_long(&mut doc, "last_modified", self.last_modified as i64);
        document_put_long(&mut doc, "last_accessed", self.last_accessed as i64);
        document_put_long(&mut doc, "hits", self.hits as i64);
        document_put_list(&mut doc, "integrity", &list);
        proof {
            lemma_field_names_differ();
            assert(narrowed(widened(self.integrity@)) =~= self.integrity@);
            assert(fields_valid(document_longs(doc), document_lists(doc)));
            assert(document_names(doc) =~= document_longs(doc).dom().union(
                document_lists(doc).dom(),
            ));
            assert(is_record_document(doc));
        }
        match document_to_bytes(&doc) {
            Ok(bytes) => Ok(bytes),
            Err(e) => {
                assert(false);
                Err(ForcepError::MetaSer(e))
            },
        }
    }

    /// Decodes a stored record. Fails with `MetaDe` exactly where the bytes stand for no
    /// record.
    pub fn deserialize(buf: &[u8]) -> (r: Result<Metadata, ForcepError>)
        ensures
            match r {
                Ok(meta) => decoded_record(buf@) == Some(meta@),
                Err(e) => e is MetaDe && decoded_record(buf@) is None,
            },
    {
        let doc = match document_from_bytes(buf) {
            Ok(doc) => doc,
            Err(e) => {
                return Err(ForcepError::MetaDe(e));
            },
        };
        let size = match document_long(&doc, "size") {
            Some(value) => value,
            None => {
                return Err(ForcepError::MetaDe(invalid_record("missing field `size`")));
            },
        };
        let last_modified = match document_long(&doc, "last_modified") {
            Some(value) => value,
            None => {
                return Err(ForcepError::MetaDe(invalid_record("missing field `last_modified`")));
            },
        };
        let last_accessed = match document_long(&doc, "last_accessed") {
            Some(value) => value,
            None => {
                return Err(ForcepError::MetaDe(invalid_record("missing field `last_accessed`")));
            },
        };
        let hits = match document_long(&doc, "hits") {
            Some(value) => value,
            None => {
                return Err(ForcepError::MetaDe(invalid_record("missing field `hits`")));
            },
        };
        let list = match document_list(&doc, "integrity") {
            Some(list) => list,
            None => {
                return Err(ForcepError::MetaDe(invalid_record("missing field `integrity`")));
            },
        };
        if size < 0 || last_modified < 0 || last_accessed < 0 || hits < 0 {
            return Err(ForcepError::MetaDe(invalid_record("negative counter")));
        }
        match narrow(&list) {
            Some(integrity) => Ok(
                Metadata {
                    size: size as u64,
                    last_modified: last_modified as u64,
                    last_accessed: last_accessed as u64,
                    hits: hits as u64,
                    integrity,
                },
            ),
            None => Err(ForcepError::MetaDe(invalid_record("malformed digest"))),
        }
    }

    /// The size in bytes of the entry.
    pub fn get_size(&self) -> (size: u64)
        ensures
            size == self@.size,
    {
        self.size
    }

    /// When the entry was last written; `None` where no time is recorded or the platform
    /// cannot represent it.
    pub fn get_last_modified(&self) -> (time: Option<std::time::SystemTime>)
        ensures
            time == stamp_time(self@.last_modified),
    {
        recorded_time(
            self.last_modified,
            unix_epoch_plus(duration_from_millis(self.last_modified)),
        )
    }

    /// When the entry was last written, in milliseconds since the Unix epoch; 0 where no
    /// time is recorded.
    pub fn get_last_modified_raw(&self) -> (millis: u64)
        ensures
            millis == self@.last_modified,
    {
        self.last_modified
    }

    /// How many times the entry has been read. Stays 0 unless access tracking is on.
    pub fn get_hits(&self) -> (hits: u64)
        ensures
            hits == self@.hits,
    {
        self.hits
    }

    /// When the entry was last read; `None` where no time is recorded or the platform
    /// cannot represent it.
    pub fn get_last_acccessed(&self) -> (time: Option<std::time::SystemTime>)
        ensures
            time == stamp_time(self@.last_accessed),
    {
        recorded_time(
            self.last_accessed,
            unix_epoch_plus(duration_from_millis(self.last_accessed)),
        )
    }

    /// When the entry was last read, in milliseconds since the Unix epoch. Equal to the
    /// time of writing unless access tracking is on.
    pub fn get_last_accessed_raw(&self) -> (millis: u64)
        ensures
            millis == self@.last_accessed,
    {
        self.last_accessed
    }

    /// The MD5 digest of the entry's bytes.
    pub fn get_integrity(&self) -> (digest: &[u8; 16])
        ensures
            digest@ == self@.integrity,
    {
        &self.integrity
    }

    /// Whether `data` has the digest that the record holds.
    pub fn check_integrity_of(&self, data: &[u8]) -> (same: bool)
        ensures
            same == (md5_digest(data@) == self@.integrity),
    {
        let other = md5_compute(data);
        let mut i: usize = 0;
        while i < 16
            invariant
                i <= 16,
                other@ == md5_digest(data@),
                forall|j: int| 0 <= j < i ==> other@[j] == self.integrity@[j],
            decreases 16 - i,
        {
            if other[i] != self.integrity[i] {
                assert(other@[i as int] != self.integrity@[i as int]);
                return false;
            }
            i += 1;
        }
        assert(other@ =~= self.integrity@);
        true
    }
}

} // verus!
