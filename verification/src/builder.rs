//! Setting up a cache: the options and their defaults.

use crate::cache::{Cache, Options};
use crate::error::ForcepError;
use vstd::prelude::*;
use vstd::string::*;

verus! {

/// The defaults for a root path: two shard levels, no access tracking, no memory
/// layer, buffers of 8 KiB.
pub open spec fn has_defaults(opts: Options, path: Seq<char>) -> bool {
    &&& opts.path@ == path
    &&& opts.dir_depth == 2
    &&& opts.track_access == false
    &&& opts.lru_size == 0
    &&& opts.rbuff_sz == 8192
    &&& opts.wbuff_sz == 8192
}

/// Collects the options of a cache before it is built.
#[derive(Debug, Clone)]
pub struct CacheBuilder {
    opts: Options,
}

impl CacheBuilder {
    /// The options collected so far.
    pub closed spec fn options(&self) -> Options {
        self.opts
    }

    /// A builder for a cache whose root directory is `path`, with the defaults.
    pub fn new(path: &str) -> (builder: CacheBuilder)
        ensures
            has_defaults(builder.options(), path@),
    {
        CacheBuilder {
            opts: Options {
                path: String::from_str(path),
                dir_depth: 2,
                track_access: false,
                lru_size: 0,
                rbuff_sz: 8192,
                wbuff_sz: 8192,
            },
        }
    }

    /// Sets how many levels of shard directories lie above a blob. A store that was
    /// filled under one depth is not found again under another.
    pub fn dir_depth(self, depth: u8) -> (builder: CacheBuilder)
        ensures
            builder.options() == (Options { dir_depth: depth, ..self.options() }),
    {
        let mut builder = self;
        builder.opts.dir_depth = depth;
        builder
    }

    /// Sets the capacity of the memory layer in bytes; 0 switches the layer off.
    pub fn memory_lru_max_size(self, size: usize) -> (builder: CacheBuilder)
        ensures
            builder.options() == (Options { lru_size: size, ..self.options() }),
    {
        let mut builder = self;
        builder.opts.lru_size = size;
        builder
    }

    /// Sets the size of the buffers through which blobs are read and written.
    pub fn read_write_buffer(self, size: usize) -> (builder: CacheBuilder)
        ensures
            builder.options() == (Options { rbuff_sz: size, wbuff_sz: size, ..self.options() }),
    {
        let mut builder = self;
        builder.opts.rbuff_sz = size;
        builder.opts.wbuff_sz = size;
        builder
    }

    /// Sets whether reads are counted in the metadata.
    pub fn track_access(self, toggle: bool) -> (builder: CacheBuilder)
        ensures
            builder.options() == (Options { track_access: toggle, ..self.options() }),
    {
        let mut builder = self;
        builder.opts.track_access = toggle;
        builder
    }

    /// Opens the cache with the options collected. The root directory must exist.
    pub fn build(self) -> (r: Result<Cache, ForcepError>)
        ensures
            match r {
                Ok(cache) => cache.wf() && cache.configured(self.options()) && cache@.entries.len()
                    == 0,
                Err(e) => e is MetaDb,
            },
    {
        Cache::create(self.opts)
    }
}

impl Default for CacheBuilder {
    /// A builder for a cache in the directory `./cache`.
    fn default() -> (builder: CacheBuilder)
        ensures
            has_defaults(builder.options(), "./cache"@),
    {
        CacheBuilder::new("./cache")
    }
}

} // verus!
