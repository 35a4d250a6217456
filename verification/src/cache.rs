//! The cache itself: the metadata store and the memory layer around a blob store on
//! disk. The files are read and written by the caller; each operation here is a step
//! function that takes what happened to the file and says what to do next.

use crate::builder::{has_defaults, CacheBuilder};
use crate::error::ForcepError;
use crate::evictors::{EvictEvent, EvictStep, Evictor};
use crate::layout::{blob_path, path_from_key};
use crate::mem_cache::{
    bytes_content, distinct_keys, settled, stored, total_len, touched, value_of, with_room,
    without, MemCache,
};
use crate::meta_db::{record_in, record_stored, scan_of, MetaDb};
use crate::metadata::{
    accessed_record, fresh_record, md5_digest, storable, Metadata, MetadataView,
};
use crate::tmp::{is_tmpname, tmpname};
use bytes::Bytes;
use vstd::prelude::*;
use vstd::string::*;

verus! {

/// How a cache is set up. Fixed once the cache is built.
#[derive(Debug, Clone)]
pub struct Options {
    /// The root directory of the cache.
    pub path: String,
    /// How many levels of shard directories lie above a blob.
    pub dir_depth: u8,
    /// Whether reads are counted in the metadata.
    pub track_access: bool,
    /// The capacity of the memory layer in bytes; 0 switches it off.
    pub lru_size: usize,
    /// The size of the buffer through which a blob is read.
    pub rbuff_sz: usize,
    /// The size of the buffer through which a blob is written.
    pub wbuff_sz: usize,
}

/// The state of a cache as the contracts see it.
pub struct CacheView {
    /// The stored bytes of each key's metadata record.
    pub records: Map<Seq<u8>, Seq<u8>>,
    /// The entries of the memory layer, least recently used first.
    pub entries: Seq<(Seq<u8>, Seq<u8>)>,
    /// The capacity of the memory layer; 0 where it is off.
    pub capacity: nat,
    /// The root directory.
    pub root: Seq<char>,
    /// The directory of the metadata store.
    pub index: Seq<char>,
    pub dir_depth: u8,
    pub track_access: bool,
    pub rbuff_sz: usize,
    pub wbuff_sz: usize,
}

/// What happened to the blob file since the last step of a read.
pub enum ReadEvent {
    /// Nothing yet: the read begins.
    Start,
    /// The file was read to its end; these are its bytes.
    Loaded(Vec<u8>),
    /// There is no file at the path.
    Missing,
    /// The file is there and could not be opened.
    OpenFailed(std::io::Error),
    /// The file was opened and reading it failed.
    LoadFailed(std::io::Error),
}

/// What a read asks for next, or how it ended.
pub enum ReadStep {
    /// Read the file at `path` below the cache root through a buffer of `buffer` bytes.
    Load { path: Vec<String>, buffer: usize },
    /// The read is over; these are the entry's bytes.
    Done(Bytes),
    /// The read is over and failed.
    Failed(ForcepError),
}

/// What happened to the blob file since the last step of a write.
pub enum WriteEvent {
    /// Nothing yet: the write begins.
    Start,
    /// The value stands in the destination file, complete.
    Stored,
    /// Some filesystem step failed.
    Failed(std::io::Error),
}

/// What a write asks for next, or how it ended.
pub enum WriteStep {
    /// Write the value to the file named `staging` in the cache root, through a buffer
    /// of `buffer` bytes; flush it; make the directories above `destination`; rename
    /// the file onto `destination`.
    Store { staging: String, destination: Vec<String>, buffer: usize },
    /// The write is over; this is the entry's new record.
    Done(Metadata),
    /// The write is over and failed.
    Failed(ForcepError),
}

/// What happened to the blob file since the last step of a removal.
pub enum RemoveEvent {
    /// Nothing yet: the removal begins.
    Start,
    /// The file was renamed away and then deleted.
    Removed,
    /// There is no file at the path.
    Missing,
    /// The file is there and could not be renamed away.
    RelocateFailed(std::io::Error),
    /// The file was renamed away and could not be deleted.
    DeleteFailed(std::io::Error),
}

/// What a removal asks for next, or how it ended.
pub enum RemoveStep {
    /// Rename the file at `blob` to the name `staging` in the cache root, then delete it.
    Unlink { blob: Vec<String>, staging: String },
    /// The removal is over; this was the entry's record.
    Done(Metadata),
    /// The removal is over and failed.
    Failed(ForcepError),
}

/// The on-disk cache: its metadata store, its memory layer and its options.
#[derive(Debug)]
pub struct Cache {
    meta: MetaDb,
    mem: MemCache,
    opts: Options,
}

/// Where the metadata store of a cache lies: the directory `index` in the cache root.
pub open spec fn index_path(root: Seq<char>) -> Seq<char> {
    root + "/index"@
}

/// The path of the metadata store of a cache with the given root.
pub fn index_dir(root: &str) -> (path: String)
    ensures
        path@ == index_path(root@),
{
    String::from_str(root).concat("/index")
}

/// What counting a read does to the metadata records. Without tracking nothing
/// happens. With it, the key's record gets the time of access and one more hit, or the
/// step fails and leaves the records as they are; after a failure of the store itself
/// nothing is known of them.
pub open spec fn access_counted(
    tracking: bool,
    before: Map<Seq<u8>, Seq<u8>>,
    key: Seq<u8>,
    after: Map<Seq<u8>, Seq<u8>>,
    r: Result<(), ForcepError>,
) -> bool {
    if !tracking {
        r is Ok && after == before
    } else {
        match r {
            Ok(_) => record_in(before, key) matches Some(old_record) && record_in(after, key)
                matches Some(new_record) && new_record == accessed_record(
                old_record,
                new_record.last_accessed,
            ) && record_stored(before, key, new_record, after),
            Err(ForcepError::MetaNotFound) => !before.contains_key(key) && after == before,
            Err(ForcepError::MetaDe(_)) => before.contains_key(key) && record_in(before, key)
                is None && after == before,
            Err(ForcepError::MetaSer(_)) => record_in(before, key) matches Some(old_record)
                && after == before && (exists|now: u64|
                !storable(#[trigger] accessed_record(old_record, now))),
            Err(e) => e is MetaDb,
        }
    }
}

/// The entries of the memory layer after a value was handed to it: stored and settled
/// where the layer is on, untouched where it is off.
pub open spec fn remembered(
    entries: Seq<(Seq<u8>, Seq<u8>)>,
    capacity: nat,
    key: Seq<u8>,
    value: Seq<u8>,
) -> Seq<(Seq<u8>, Seq<u8>)> {
    if capacity > 0 {
        settled(stored(with_room(entries), md5_digest(key), value), capacity)
    } else {
        entries
    }
}

impl CacheView {
    /// The memory layer holds no key twice and no more bytes than its capacity, and
    /// nothing at all where it is off.
    pub open spec fn wf(self) -> bool {
        &&& distinct_keys(self.entries)
        &&& total_len(self.entries) <= self.capacity
        &&& self.capacity == 0 ==> self.entries.len() == 0
    }

    /// The same options and memory capacity.
    pub open spec fn same_setup(self, other: CacheView) -> bool {
        &&& self.capacity == other.capacity
        &&& self.root == other.root
        &&& self.index == other.index
        &&& self.dir_depth == other.dir_depth
        &&& self.track_access == other.track_access
        &&& self.rbuff_sz == other.rbuff_sz
        &&& self.wbuff_sz == other.wbuff_sz
    }

    /// The value that the memory layer holds for a key, if any.
    pub open spec fn cached(self, key: Seq<u8>) -> Option<Seq<u8>> {
        value_of(self.entries, md5_digest(key))
    }

    /// The metadata record of a key, if it has one that can be decoded.
    pub open spec fn record_of(self, key: Seq<u8>) -> Option<MetadataView> {
        record_in(self.records, key)
    }
}

/// The first step of a read. A key that the memory layer holds is served from it, its
/// entry becomes the most recently used and the read is counted; for any other key the
/// caller is sent to the blob's file.
pub open spec fn read_started(pre: CacheView, key: Seq<u8>, post: CacheView, step: ReadStep) -> bool {
    &&& post.same_setup(pre)
    &&& post.entries == touched(pre.entries, md5_digest(key))
    &&& match pre.cached(key) {
        Some(value) => match step {
            ReadStep::Done(bytes) => bytes_content(bytes) == value && access_counted(
                pre.track_access,
                pre.records,
                key,
                post.records,
                Ok(()),
            ),
            ReadStep::Failed(e) => pre.track_access && access_counted(
                true,
                pre.records,
                key,
                post.records,
                Err(e),
            ),
            ReadStep::Load { .. } => false,
        },
        None => step matches ReadStep::Load { path, buffer } && path.deep_view() == blob_path(
            key,
            pre.dir_depth as nat,
        ) && buffer == pre.rbuff_sz && post.records == pre.records,
    }
}

/// The last step of a read that went to the file: the read is counted, the bytes are
/// handed to the memory layer and returned. Where counting fails the memory layer is
/// left as it was.
pub open spec fn read_loaded(
    pre: CacheView,
    key: Seq<u8>,
    data: Seq<u8>,
    post: CacheView,
    step: ReadStep,
) -> bool {
    &&& post.same_setup(pre)
    &&& match step {
        ReadStep::Done(bytes) => bytes_content(bytes) == data && access_counted(
            pre.track_access,
            pre.records,
            key,
            post.records,
            Ok(()),
        ) && post.entries == remembered(pre.entries, pre.capacity, key, data),
        ReadStep::Failed(e) => pre.track_access && access_counted(
            true,
            pre.records,
            key,
            post.records,
            Err(e),
        ) && post.entries == pre.entries,
        ReadStep::Load { .. } => false,
    }
}

/// The first step of a write: the caller is told where to stage the value and where
/// it belongs.
pub open spec fn write_started(pre: CacheView, key: Seq<u8>, post: CacheView, step: WriteStep) -> bool {
    &&& post == pre
    &&& step matches WriteStep::Store { staging, destination, buffer }
    &&& is_tmpname(staging@, "tmp"@, 10)
    &&& destination.deep_view() == blob_path(key, pre.dir_depth as nat)
    &&& buffer == pre.wbuff_sz
}

/// The last step of a write whose file is in place: the value is handed to the memory
/// layer, then a fresh record takes the place of whatever record the key had.
pub open spec fn write_stored(
    pre: CacheView,
    key: Seq<u8>,
    value: Seq<u8>,
    post: CacheView,
    step: WriteStep,
) -> bool {
    &&& post.same_setup(pre)
    &&& post.entries == remembered(pre.entries, pre.capacity, key, value)
    &&& match step {
        WriteStep::Done(meta) => meta@ == fresh_record(value, meta@.last_modified)
            && record_stored(pre.records, key, meta@, post.records),
        WriteStep::Failed(ForcepError::MetaSer(_)) => post.records == pre.records && (exists|
            now: u64,
        | !storable(#[trigger] fresh_record(value, now))),
        WriteStep::Failed(e) => e is MetaDb,
        WriteStep::Store { .. } => false,
    }
}

/// The first step of a removal: the caller is told which file to rename away and
/// under which name.
pub open spec fn remove_started(
    pre: CacheView,
    key: Seq<u8>,
    post: CacheView,
    step: RemoveStep,
) -> bool {
    &&& post == pre
    &&& step matches RemoveStep::Unlink { blob, staging }
    &&& blob.deep_view() == blob_path(key, pre.dir_depth as nat)
    &&& is_tmpname(staging@, "tmp"@, 10)
}

/// The last step of a removal whose file is gone: the memory layer forgets the key,
/// and the key's record leaves the metadata store and is returned. A key without a
/// record gives `MetaNotFound`.
pub open spec fn remove_unlinked(
    pre: CacheView,
    key: Seq<u8>,
    post: CacheView,
    step: RemoveStep,
) -> bool {
    &&& post.same_setup(pre)
    &&& post.entries == without(pre.entries, md5_digest(key))
    &&& match step {
        RemoveStep::Done(meta) => pre.record_of(key) == Some(meta@) && post.records
            == pre.records.remove(key),
        RemoveStep::Failed(ForcepError::MetaNotFound) => !pre.records.contains_key(key)
            && post.records == pre.records,
        RemoveStep::Failed(ForcepError::MetaDe(_)) => pre.records.contains_key(key)
            && pre.record_of(key) is None && post.records == pre.records.remove(key),
        RemoveStep::Failed(e) => e is MetaDb,
        RemoveStep::Unlink { .. } => false,
    }
}

impl View for Cache {
    type V = CacheView;

    closed spec fn view(&self) -> CacheView {
        CacheView {
            records: self.meta.records(),
            entries: self.mem.entries(),
            capacity: self.mem.capacity(),
            root: self.opts.path@,
            index: self.meta.location(),
            dir_depth: self.opts.dir_depth,
            track_access: self.opts.track_access,
            rbuff_sz: self.opts.rbuff_sz,
            wbuff_sz: self.opts.wbuff_sz,
        }
    }
}

impl Cache {
    /// The memory layer is well formed.
    pub closed spec fn wf(&self) -> bool {
        self.mem.wf()
    }

    /// A well-formed cache has a well-formed view.
    pub proof fn lemma_view_wf(&self)
        requires
            self.wf(),
        ensures
            self@.wf(),
    {
        self.mem.lemma_wf();
    }

    /// The cache is set up as the options say.
    pub open spec fn configured(&self, opts: Options) -> bool {
        &&& self@.capacity == opts.lru_size
        &&& self@.root == opts.path@
        &&& self@.index == index_path(opts.path@)
        &&& self@.dir_depth == opts.dir_depth
        &&& self@.track_access == opts.track_access
        &&& self@.rbuff_sz == opts.rbuff_sz
        &&& self@.wbuff_sz == opts.wbuff_sz
    }

    /// Starts the setup of a cache whose root directory is `path`.
    pub fn new(path: &str) -> (builder: CacheBuilder)
        ensures
            has_defaults(builder.options(), path@),
    {
        CacheBuilder::new(path)
    }

    /// Opens the cache that the options describe: the metadata store in the directory
    /// `index` of the root, and an empty memory layer.
    pub fn create(opts: Options) -> (r: Result<Cache, ForcepError>)
        ensures
            match r {
                Ok(cache) => cache.wf() && cache.configured(opts) && cache@.entries.len() == 0,
                Err(e) => e is MetaDb,
            },
    {
        let index = index_dir(opts.path.as_str());
        match MetaDb::new(index.as_str()) {
            Ok(meta) => Ok(Cache { meta, mem: MemCache::new(opts.lru_size), opts }),
            Err(e) => Err(e),
        }
    }

    /// The path of a key's blob below the cache root, one string for each component.
    pub fn path_from_key(&self, key: &[u8]) -> (path: Vec<String>)
        ensures
            path.deep_view() == blob_path(key@, self@.dir_depth as nat),
    {
        path_from_key(key, self.opts.dir_depth)
    }

    /// The root directory of the cache.
    pub fn root(&self) -> (path: &str)
        ensures
            path@ == self@.root,
    {
        self.opts.path.as_str()
    }

    /// Counts a read of a key in the metadata, where tracking is on.
    fn track_access_for(&mut self, k: &[u8]) -> (r: Result<(), ForcepError>)
        requires
            old(self).wf(),
        ensures
            final(self).wf(),
            final(self)@.same_setup(old(self)@),
            final(self)@.entries == old(self)@.entries,
            access_counted(
                old(self)@.track_access,
                old(self)@.records,
                k@,
                final(self)@.records,
                r,
            ),
    {
        if self.opts.track_access {
            match self.meta.track_access_for(k) {
                Ok(_) => Ok(()),
                Err(e) => Err(e),
            }
        } else {
            Ok(())
        }
    }

    /// One step of reading the entry of `key`. Begin with `ReadEvent::Start`; after a
    /// `Load` step, read the file and come back with what happened.
    pub fn read(&mut self, key: &[u8], event: ReadEvent) -> (step: ReadStep)
        requires
            old(self).wf(),
        ensures
            final(self).wf(),
            match event {
                ReadEvent::Start => read_started(old(self)@, key@, final(self)@, step),
                ReadEvent::Loaded(data) => read_loaded(
                    old(self)@,
                    key@,
                    data@,
                    final(self)@,
                    step,
                ),
                ReadEvent::Missing => final(self)@ == old(self)@ && (step
                    matches ReadStep::Failed(e) && e is NotFound),
                ReadEvent::OpenFailed(error) => final(self)@ == old(self)@ && (step
                    matches ReadStep::Failed(e) && e == ForcepError::Io(error)),
                ReadEvent::LoadFailed(error) => final(self)@ == old(self)@ && (step
                    matches ReadStep::Failed(e) && e == ForcepError::Io(error)),
            },
    {
        proof {
            self.mem.lemma_wf();
        }
        match event {
            ReadEvent::Start => {
                match self.mem.get(key) {
                    Some(bytes) => match self.track_access_for(key) {
                        Ok(_) => ReadStep::Done(bytes),
                        Err(e) => ReadStep::Failed(e),
                    },
                    None => ReadStep::Load {
                        path: self.path_from_key(key),
                        buffer: self.opts.rbuff_sz,
                    },
                }
            },
            ReadEvent::Loaded(data) => {
                match self.track_access_for(key) {
                    Ok(_) => {
                        proof {
                            self.mem.lemma_wf();
                        }
                        let bytes = Bytes::from(data);
                        self.mem.put(key, bytes.clone());
                        ReadStep::Done(bytes)
                    },
                    Err(e) => ReadStep::Failed(e),
                }
            },
            ReadEvent::Missing => ReadStep::Failed(ForcepError::NotFound),
            ReadEvent::OpenFailed(error) => ReadStep::Failed(ForcepError::Io(error)),
            ReadEvent::LoadFailed(error) => ReadStep::Failed(ForcepError::Io(error)),
        }
    }

    /// One step of writing `value` as the entry of `key`. Begin with
    /// `WriteEvent::Start`; after a `Store` step, put the file in place and come back
    /// with what happened.
    pub fn write(&mut self, key: &[u8], value: &[u8], event: WriteEvent) -> (step: WriteStep)
        requires
            old(self).wf(),
        ensures
            final(self).wf(),
            match event {
                WriteEvent::Start => write_started(old(self)@, key@, final(self)@, step),
                WriteEvent::Stored => write_stored(old(self)@, key@, value@, final(self)@, step),
                WriteEvent::Failed(error) => final(self)@ == old(self)@ && (step
                    matches WriteStep::Failed(e) && e == ForcepError::Io(error)),
            },
    {
        proof {
            self.mem.lemma_wf();
        }
        match event {
            WriteEvent::Start => WriteStep::Store {
                staging: tmpname("tmp", 10),
                destination: self.path_from_key(key),
                buffer: self.opts.wbuff_sz,
            },
            WriteEvent::Stored => {
                if !self.mem.is_nil() {
                    self.mem.put(key, Bytes::copy_from_slice(value));
                }
                match self.meta.insert_metadata_for(key, value) {
                    Ok(meta) => WriteStep::Done(meta),
                    Err(e) => WriteStep::Failed(e),
                }
            },
            WriteEvent::Failed(error) => WriteStep::Failed(ForcepError::Io(error)),
        }
    }

    /// One step of removing the entry of `key`. Begin with `RemoveEvent::Start`; after
    /// an `Unlink` step, rename the file away, delete it and come back with what
    /// happened.
    pub fn remove(&mut self, key: &[u8], event: RemoveEvent) -> (step: RemoveStep)
        requires
            old(self).wf(),
        ensures
            final(self).wf(),
            match event {
                RemoveEvent::Start => remove_started(old(self)@, key@, final(self)@, step),
                RemoveEvent::Removed => remove_unlinked(old(self)@, key@, final(self)@, step),
                RemoveEvent::Missing => final(self)@ == old(self)@ && (step
                    matches RemoveStep::Failed(e) && e is NotFound),
                RemoveEvent::RelocateFailed(error) => final(self)@ == old(self)@ && (step
                    matches RemoveStep::Failed(e) && e == ForcepError::Io(error)),
                RemoveEvent::DeleteFailed(error) => final(self)@ == old(self)@ && (step
                    matches RemoveStep::Failed(e) && e == ForcepError::Io(error)),
            },
    {
        match event {
            RemoveEvent::Start => RemoveStep::Unlink {
                blob: self.path_from_key(key),
                staging: tmpname("tmp", 10),
            },
            RemoveEvent::Removed => {
                self.mem.remove(key);
                match self.meta.remove_metadata_for(key) {
                    Ok(meta) => RemoveStep::Done(meta),
                    Err(e) => RemoveStep::Failed(e),
                }
            },
            RemoveEvent::Missing => RemoveStep::Failed(ForcepError::NotFound),
            RemoveEvent::RelocateFailed(error) => RemoveStep::Failed(ForcepError::Io(error)),
            RemoveEvent::DeleteFailed(error) => RemoveStep::Failed(ForcepError::Io(error)),
        }
    }

    /// One step of an eviction on this cache: asks the evictor what to remove next.
    pub fn evict_with<V: Evictor>(&self, evictor: &mut V, event: EvictEvent) -> (r: Result<
        EvictStep,
        V::Err,
    >)
        requires
            old(evictor).ready(),
        ensures
            final(evictor).ready(),
            V::stepped(*old(evictor), self@, event, *final(evictor), r),
    {
        evictor.evict(self, event)
    }

    /// Looks up the metadata record of a key. Touches neither the blob nor the memory
    /// layer.
    pub fn read_metadata(&self, key: &[u8]) -> (r: Result<Metadata, ForcepError>)
        ensures
            match r {
                Ok(meta) => self@.record_of(key@) == Some(meta@),
                Err(ForcepError::MetaNotFound) => !self@.records.contains_key(key@),
                Err(ForcepError::MetaDe(_)) => self@.records.contains_key(key@)
                    && self@.record_of(key@) is None,
                Err(e) => e is MetaDb,
            },
    {
        self.meta.get_metadata(key)
    }

    /// Every metadata record of the cache with its key, in the order of the store.
    pub fn metadata_iter(&self) -> (items: Vec<Result<(Vec<u8>, Metadata), ForcepError>>)
        ensures
            scan_of(items@, self@.records),
    {
        self.meta.metadata_iter()
    }
}

} // verus!
