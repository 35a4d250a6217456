//! The bounded in-memory layer: a least-recently-used map from hashed key to blob, with
//! a running count of the bytes it holds.

use crate::metadata::{md5_compute, md5_digest};
use bytes::Bytes;
use lru::LruCache;
use vstd::prelude::*;

verus! {

/// `lru::LruCache`, taken as it is.
#[verifier::external_type_specification]
#[verifier::external_body]
#[verifier::reject_recursive_types(K)]
#[verifier::reject_recursive_types(V)]
#[verifier::reject_recursive_types(S)]
pub struct ExLruCache<K, V, S>(LruCache<K, V, S>);

/// The hasher that `lru::LruCache` uses where none is given.
#[verifier::external_type_specification]
#[verifier::external_body]
pub struct ExLruHasher(lru::DefaultHasher);

/// `bytes::Bytes`: a buffer that is cheap to clone.
#[verifier::external_type_specification]
#[verifier::external_body]
pub struct ExBytes(Bytes);

/// The bytes that a buffer holds.
pub uninterp spec fn bytes_content(b: Bytes) -> Seq<u8>;

/// The entries of the map as pairs of key and value, least recently used first.
pub uninterp spec fn lru_entries(c: LruCache<[u8; 16], Bytes>) -> Seq<(Seq<u8>, Seq<u8>)>;

/// `Bytes::len` is the number of bytes held.
pub assume_specification[ Bytes::len ](b: &Bytes) -> (n: usize)
    ensures
        n == bytes_content(*b).len(),
;

/// A clone of a buffer holds the same bytes.
pub assume_specification[ <Bytes as Clone>::clone ](b: &Bytes) -> (c: Bytes)
    ensures
        bytes_content(c) == bytes_content(*b),
;

/// A buffer made from a vector holds the vector's bytes.
pub assume_specification[ <Bytes as From<Vec<u8>>>::from ](v: Vec<u8>) -> (b: Bytes)
    ensures
        bytes_content(b) == v@,
;

/// `Bytes::copy_from_slice` makes a buffer that holds the slice's bytes.
pub assume_specification[ Bytes::copy_from_slice ](data: &[u8]) -> (b: Bytes)
    ensures
        bytes_content(b) == data@,
;

/// Whether some entry has the key.
pub open spec fn holds_key(entries: Seq<(Seq<u8>, Seq<u8>)>, key: Seq<u8>) -> bool {
    exists|i: int| 0 <= i < entries.len() && (#[trigger] entries[i]).0 == key
}

/// Where the entry with the key stands. Meaningful where there is one.
pub open spec fn key_index(entries: Seq<(Seq<u8>, Seq<u8>)>, key: Seq<u8>) -> int {
    choose|i: int| 0 <= i < entries.len() && (#[trigger] entries[i]).0 == key
}

/// The value stored under the key, if any.
pub open spec fn value_of(entries: Seq<(Seq<u8>, Seq<u8>)>, key: Seq<u8>) -> Option<Seq<u8>> {
    if holds_key(entries, key) {
        Some(entries[key_index(entries, key)].1)
    } else {
        None
    }
}

/// No key stands in two entries.
pub open spec fn distinct_keys(entries: Seq<(Seq<u8>, Seq<u8>)>) -> bool {
    forall|i: int, j: int|
        0 <= i < j < entries.len() ==> (#[trigger] entries[i]).0 != (#[trigger] entries[j]).0
}

/// The entries without the one under the key.
pub open spec fn without(entries: Seq<(Seq<u8>, Seq<u8>)>, key: Seq<u8>) -> Seq<
    (Seq<u8>, Seq<u8>),
> {
    if holds_key(entries, key) {
        entries.remove(key_index(entries, key))
    } else {
        entries
    }
}

/// The entries after the key was stored with a value: it is now the most recently used.
pub open spec fn stored(entries: Seq<(Seq<u8>, Seq<u8>)>, key: Seq<u8>, value: Seq<u8>) -> Seq<
    (Seq<u8>, Seq<u8>),
> {
    without(entries, key).push((key, value))
}

/// The entries after the key was read: where it is held, it is now the most recently
/// used.
pub open spec fn touched(entries: Seq<(Seq<u8>, Seq<u8>)>, key: Seq<u8>) -> Seq<
    (Seq<u8>, Seq<u8>),
> {
    if holds_key(entries, key) {
        stored(entries, key, entries[key_index(entries, key)].1)
    } else {
        entries
    }
}

/// The number of bytes that the values hold together.
pub open spec fn total_len(entries: Seq<(Seq<u8>, Seq<u8>)>) -> nat
    decreases entries.len(),
{
    if entries.len() == 0 {
        0
    } else {
        entries[0].1.len() + total_len(entries.drop_first())
    }
}

/// What is left after the least recently used entries have gone, one by one, until
/// the rest holds at most `cap` bytes.
pub open spec fn settled(entries: Seq<(Seq<u8>, Seq<u8>)>, cap: nat) -> Seq<(Seq<u8>, Seq<u8>)>
    decreases entries.len(),
{
    if entries.len() == 0 || total_len(entries) <= cap {
        entries
    } else {
        settled(entries.drop_first(), cap)
    }
}

/// A map that can take no further entry gives up its least recently used one first.
/// (It is full at `usize::MAX` entries.)
pub open spec fn with_room(entries: Seq<(Seq<u8>, Seq<u8>)>) -> Seq<(Seq<u8>, Seq<u8>)> {
    if entries.len() >= usize::MAX {
        entries.drop_first()
    } else {
        entries
    }
}

/// `LruCache::unbounded` makes an empty map.
#[verifier::external_body]
fn lru_unbounded() -> (c: LruCache<[u8; 16], Bytes>)
    ensures
        lru_entries(c).len() == 0,
{
    LruCache::unbounded()
}

/// `LruCache::len` is the number of entries.
#[verifier::external_body]
fn lru_len(c: &LruCache<[u8; 16], Bytes>) -> (n: usize)
    ensures
        n == lru_entries(*c).len(),
{
    c.len()
}

/// `LruCache::get` finds the value of a key and makes its entry the most recently used;
/// the value is handed out as a clone. A key that is not held changes nothing.
#[verifier::external_body]
fn lru_get(c: &mut LruCache<[u8; 16], Bytes>, key: &[u8; 16]) -> (r: Option<Bytes>)
    ensures
        lru_entries(*final(c)) == touched(lru_entries(*old(c)), key@),
        match r {
            Some(value) => value_of(lru_entries(*old(c)), key@) == Some(bytes_content(value)),
            None => value_of(lru_entries(*old(c)), key@) is None,
        },
{
    c.get(key).cloned()
}

/// `LruCache::peek` finds the value of a key and leaves the order of use as it is; the
/// value is handed out as a clone.
#[verifier::external_body]
fn lru_peek(c: &LruCache<[u8; 16], Bytes>, key: &[u8; 16]) -> (r: Option<Bytes>)
    ensures
        match r {
            Some(value) => value_of(lru_entries(*c), key@) == Some(bytes_content(value)),
            None => value_of(lru_entries(*c), key@) is None,
        },
{
    c.peek(key).cloned()
}

/// `LruCache::put` stores a value under a key, makes the entry the most recently used
/// and returns the value that the key held before. A map made by `unbounded` drops an
/// entry of its own accord only when it holds `usize::MAX` of them: that case is left out.
#[verifier::external_body]
fn lru_put(c: &mut LruCache<[u8; 16], Bytes>, key: [u8; 16], value: Bytes) -> (r: Option<Bytes>)
    requires
        lru_entries(*old(c)).len() < usize::MAX,
    ensures
        lru_entries(*final(c)) == stored(lru_entries(*old(c)), key@, bytes_content(value)),
        match r {
            Some(before) => value_of(lru_entries(*old(c)), key@) == Some(bytes_content(before)),
            None => value_of(lru_entries(*old(c)), key@) is None,
        },
{
    c.put(key, value)
}

/// `LruCache::pop` takes the entry of a key out and returns its value; a key that is
/// not held changes nothing.
#[verifier::external_body]
fn lru_pop(c: &mut LruCache<[u8; 16], Bytes>, key: &[u8; 16]) -> (r: Option<Bytes>)
    ensures
        lru_entries(*final(c)) == without(lru_entries(*old(c)), key@),
        match r {
            Some(value) => value_of(lru_entries(*old(c)), key@) == Some(bytes_content(value)),
            None => value_of(lru_entries(*old(c)), key@) is None,
        },
{
    c.pop(key)
}

/// `LruCache::pop_lru` takes the least recently used entry out and returns its value;
/// `None` where the map is empty.
#[verifier::external_body]
fn lru_pop_lru(c: &mut LruCache<[u8; 16], Bytes>) -> (r: Option<Bytes>)
    ensures
        match r {
            Some(value) => lru_entries(*old(c)).len() > 0 && bytes_content(value) == lru_entries(
                *old(c),
            )[0].1 && lru_entries(*final(c)) == lru_entries(*old(c)).drop_first(),
            None => lru_entries(*old(c)).len() == 0 && lru_entries(*final(c)) == lru_entries(
                *old(c),
            ),
        },
{
    c.pop_lru().map(|entry| entry.1)
}

/// The key under which the memory layer files an entry: the MD5 digest of the raw key.
pub fn hash_key(k: &[u8]) -> (hashed: [u8; 16])
    ensures
        hashed@ == md5_digest(k@),
{
    md5_compute(k)
}

/// One more entry adds the length of its value.
pub proof fn lemma_total_len_push(entries: Seq<(Seq<u8>, Seq<u8>)>, entry: (Seq<u8>, Seq<u8>))
    ensures
        total_len(entries.push(entry)) == total_len(entries) + entry.1.len(),
    decreases entries.len(),
{
    if entries.len() == 0 {
        assert(entries.push(entry).drop_first() =~= entries);
    } else {
        assert(entries.push(entry).drop_first() =~= entries.drop_first().push(entry));
        lemma_total_len_push(entries.drop_first(), entry);
    }
}

/// One entry less takes the length of its value off.
pub proof fn lemma_total_len_remove(entries: Seq<(Seq<u8>, Seq<u8>)>, i: int)
    requires
        0 <= i < entries.len(),
    ensures
        total_len(entries.remove(i)) + entries[i].1.len() == total_len(entries),
    decreases entries.len(),
{
    if i == 0 {
        assert(entries.remove(0) =~= entries.drop_first());
    } else {
        assert(entries.remove(i).drop_first() =~= entries.drop_first().remove(i - 1));
        lemma_total_len_remove(entries.drop_first(), i - 1);
    }
}

/// Storing a value changes the byte count by the new length less the old one.
pub proof fn lemma_total_len_stored(
    entries: Seq<(Seq<u8>, Seq<u8>)>,
    key: Seq<u8>,
    value: Seq<u8>,
)
    ensures
        total_len(stored(entries, key, value)) + (match value_of(entries, key) {
            Some(before) => before.len(),
            None => 0,
        }) == total_len(entries) + value.len(),
{
    lemma_total_len_push(without(entries, key), (key, value));
    if holds_key(entries, key) {
        lemma_total_len_remove(entries, key_index(entries, key));
    }
}

/// Storing a value keeps the keys distinct.
pub proof fn lemma_stored_distinct(entries: Seq<(Seq<u8>, Seq<u8>)>, key: Seq<u8>, value: Seq<u8>)
    requires
        distinct_keys(entries),
    ensures
        distinct_keys(stored(entries, key, value)),
        value_of(stored(entries, key, value), key) == Some(value),
        stored(entries, key, value).len() == entries.len() + (if holds_key(entries, key) {
            0int
        } else {
            1int
        }),
{
    let rest = without(entries, key);
    let after = stored(entries, key, value);
    assert forall|i: int| 0 <= i < rest.len() implies (#[trigger] rest[i]).0 != key by {
        if holds_key(entries, key) {
            let at = key_index(entries, key);
            if i < at {
                assert(rest[i] == entries[i]);
            } else {
                assert(rest[i] == entries[i + 1]);
            }
        } else {
            assert(rest[i] == entries[i]);
        }
    }
    assert forall|i: int, j: int| 0 <= i < j < rest.len() implies (#[trigger] rest[i]).0 != (
    #[trigger] rest[j]).0 by {
        if holds_key(entries, key) {
            let at = key_index(entries, key);
            let a = if i < at { i } else { i + 1 };
            let b = if j < at { j } else { j + 1 };
            assert(rest[i] == entries[a]);
            assert(rest[j] == entries[b]);
        }
    }
    assert forall|i: int, j: int| 0 <= i < j < after.len() implies (#[trigger] after[i]).0 != (
    #[trigger] after[j]).0 by {
        if j < rest.len() {
            assert(after[i] == rest[i]);
            assert(after[j] == rest[j]);
        } else {
            assert(after[i] == rest[i]);
        }
    }
    let last = after.len() - 1;
    assert(after[last].0 == key);
    assert(holds_key(after, key));
    let found = key_index(after, key);
    if found != last {
        assert(after[found] == rest[found]);
    }
}

/// Taking the entry of a key out keeps the keys distinct, and the key is held no more.
pub proof fn lemma_without_distinct(entries: Seq<(Seq<u8>, Seq<u8>)>, key: Seq<u8>)
    requires
        distinct_keys(entries),
    ensures
        distinct_keys(without(entries, key)),
        !holds_key(without(entries, key), key),
        forall|other: Seq<u8>|
            other != key ==> #[trigger] value_of(without(entries, key), other) == value_of(
                entries,
                other,
            ),
{
    let rest = without(entries, key);
    if holds_key(entries, key) {
        let at = key_index(entries, key);
        assert forall|i: int| 0 <= i < rest.len() implies (#[trigger] rest[i]).0 != key by {
            if i < at {
                assert(rest[i] == entries[i]);
            } else {
                assert(rest[i] == entries[i + 1]);
            }
        }
        assert forall|i: int, j: int| 0 <= i < j < rest.len() implies (#[trigger] rest[i]).0 != (
        #[trigger] rest[j]).0 by {
            let a = if i < at { i } else { i + 1 };
            let b = if j < at { j } else { j + 1 };
            assert(rest[i] == entries[a]);
            assert(rest[j] == entries[b]);
        }
        assert forall|other: Seq<u8>| other != key implies #[trigger] value_of(rest, other)
            == value_of(entries, other) by {
            if holds_key(rest, other) {
                let i = key_index(rest, other);
                let from = if i < at { i } else { i + 1 };
                assert(rest[i] == entries[from]);
                assert(holds_key(entries, other));
                let found = key_index(entries, other);
                if found != from {
                    if found < from {
                        assert(entries[found].0 != entries[from].0);
                    } else {
                        assert(entries[from].0 != entries[found].0);
                    }
                }
            } else if holds_key(entries, other) {
                let found = key_index(entries, other);
                let to = if found < at { found } else { found - 1 };
                assert(rest[to] == entries[found]);
            }
        }
    }
}

/// Taking the least recently used entry out keeps the keys distinct.
pub proof fn lemma_drop_first_distinct(entries: Seq<(Seq<u8>, Seq<u8>)>)
    requires
        distinct_keys(entries),
        entries.len() > 0,
    ensures
        distinct_keys(entries.drop_first()),
{
    let rest = entries.drop_first();
    assert forall|i: int, j: int| 0 <= i < j < rest.len() implies (#[trigger] rest[i]).0 != (
    #[trigger] rest[j]).0 by {
        assert(rest[i] == entries[i + 1]);
        assert(rest[j] == entries[j + 1]);
    }
}

/// What settling leaves holds at most `cap` bytes, and its keys are distinct where they
/// were before.
pub proof fn lemma_settled_fits(entries: Seq<(Seq<u8>, Seq<u8>)>, cap: nat)
    ensures
        total_len(settled(entries, cap)) <= cap,
        distinct_keys(entries) ==> distinct_keys(settled(entries, cap)),
        settled(entries, cap).len() <= entries.len(),
    decreases entries.len(),
{
    if entries.len() == 0 || total_len(entries) <= cap {
    } else {
        lemma_settled_fits(entries.drop_first(), cap);
        if distinct_keys(entries) {
            lemma_drop_first_distinct(entries);
        }
    }
}

/// The memory layer when it is switched on.
#[derive(Debug)]
pub struct MemCacheInner {
    cache: LruCache<[u8; 16], Bytes>,
    cap: usize,
    current: usize,
}

impl MemCacheInner {
    /// The entries, least recently used first, each under its hashed key.
    pub closed spec fn entries(&self) -> Seq<(Seq<u8>, Seq<u8>)> {
        lru_entries(self.cache)
    }

    /// The most bytes that the layer may hold once an insertion has settled.
    pub closed spec fn capacity(&self) -> nat {
        self.cap as nat
    }

    /// The running count of bytes held.
    pub closed spec fn current(&self) -> nat {
        self.current as nat
    }

    /// The count is the sum of the lengths of the values held, it is within the
    /// capacity, and no key is held twice.
    pub open spec fn wf(&self) -> bool {
        &&& self.current() == total_len(self.entries())
        &&& self.current() <= self.capacity()
        &&& distinct_keys(self.entries())
    }

    /// An empty layer that may hold `cap` bytes.
    pub fn new(cap: usize) -> (inner: MemCacheInner)
        ensures
            inner.wf(),
            inner.capacity() == cap,
            inner.entries().len() == 0,
    {
        MemCacheInner { cache: lru_unbounded(), cap, current: 0 }
    }

    /// Looks a key up and counts the lookup as a use of its entry.
    pub fn get(&mut self, k: &[u8]) -> (r: Option<Bytes>)
        requires
            old(self).wf(),
        ensures
            final(self).wf(),
            final(self).capacity() == old(self).capacity(),
            final(self).entries() == touched(old(self).entries(), md5_digest(k@)),
            match r {
                Some(value) => value_of(old(self).entries(), md5_digest(k@)) == Some(
                    bytes_content(value),
                ),
                None => value_of(old(self).entries(), md5_digest(k@)) is None,
            },
    {
        let hashed = hash_key(k);
        let r = lru_get(&mut self.cache, &hashed);
        proof {
            let before = old(self).entries();
            if holds_key(before, hashed@) {
                let value = before[key_index(before, hashed@)].1;
                lemma_total_len_stored(before, hashed@, value);
                lemma_stored_distinct(before, hashed@, value);
            }
        }
        r
    }

    /// Looks a key up without counting the lookup as a use.
    pub fn peek(&self, k: &[u8]) -> (r: Option<Bytes>)
        ensures
            match r {
                Some(value) => value_of(self.entries(), md5_digest(k@)) == Some(
                    bytes_content(value),
                ),
                None => value_of(self.entries(), md5_digest(k@)) is None,
            },
    {
        let hashed = hash_key(k);
        lru_peek(&self.cache, &hashed)
    }

    /// Takes the entry of a key out of the layer and returns its value.
    pub fn remove(&mut self, k: &[u8]) -> (r: Option<Bytes>)
        requires
            old(self).wf(),
        ensures
            final(self).wf(),
            final(self).capacity() == old(self).capacity(),
            final(self).entries() == without(old(self).entries(), md5_digest(k@)),
            match r {
                Some(value) => value_of(old(self).entries(), md5_digest(k@)) == Some(
                    bytes_content(value),
                ),
                None => value_of(old(self).entries(), md5_digest(k@)) is None,
            },
    {
        let hashed = hash_key(k);
        let r = lru_pop(&mut self.cache, &hashed);
        proof {
            let before = old(self).entries();
            lemma_without_distinct(before, hashed@);
            if holds_key(before, hashed@) {
                lemma_total_len_remove(before, key_index(before, hashed@));
            }
        }
        match &r {
            Some(value) => {
                self.current = self.current - value.len();
            },
            None => {},
        }
        r
    }

    /// Stores a value under a key, as the most recently used entry, then lets the least
    /// recently used entries go until the layer is within its capacity again. Returns
    /// the value that the key held before.
    pub fn put(&mut self, k: &[u8], v: Bytes) -> (previous: Option<Bytes>)
        requires
            old(self).wf(),
        ensures
            final(self).wf(),
            final(self).capacity() == old(self).capacity(),
            final(self).entries() == settled(
                stored(with_room(old(self).entries()), md5_digest(k@), bytes_content(v)),
                old(self).capacity(),
            ),
            match previous {
                Some(before) => value_of(with_room(old(self).entries()), md5_digest(k@)) == Some(
                    bytes_content(before),
                ),
                None => value_of(with_room(old(self).entries()), md5_digest(k@)) is None,
            },
    {
        let hashed = hash_key(k);
        let v_sz = v.len();
        if lru_len(&self.cache) == usize::MAX {
            match lru_pop_lru(&mut self.cache) {
                Some(gone) => {
                    proof {
                        lemma_drop_first_distinct(old(self).entries());
                    }
                    self.current = self.current - gone.len();
                },
                None => {},
            }
        }
        let ghost base = self.entries();
        assert(base == with_room(old(self).entries()));
        let previous = lru_put(&mut self.cache, hashed, v);
        proof {
            lemma_total_len_stored(base, hashed@, bytes_content(v));
            lemma_stored_distinct(base, hashed@, bytes_content(v));
            if holds_key(base, hashed@) {
                lemma_total_len_remove(base, key_index(base, hashed@));
            }
        }
        let mut held: u128 = self.current as u128;
        match &previous {
            Some(before) => {
                held = held - before.len() as u128;
            },
            None => {},
        }
        held = held + v_sz as u128;
        self.evict(held);
        previous
    }

    /// Lets the least recently used entries go, one by one, until at most `cap` bytes
    /// are held, and records the new count. `held` is what the entries hold now.
    fn evict(&mut self, held: u128)
        requires
            held == total_len(old(self).entries()),
            distinct_keys(old(self).entries()),
        ensures
            final(self).wf(),
            final(self).capacity() == old(self).capacity(),
            final(self).entries() == settled(old(self).entries(), old(self).capacity()),
    {
        let mut held = held;
        while held > self.cap as u128
            invariant
                self.cap == old(self).cap,
                held == total_len(self.entries()),
                distinct_keys(self.entries()),
                settled(self.entries(), self.cap as nat) == settled(
                    old(self).entries(),
                    old(self).cap as nat,
                ),
            decreases self.entries().len(),
        {
            let ghost before = self.entries();
            match lru_pop_lru(&mut self.cache) {
                Some(gone) => {
                    proof {
                        lemma_drop_first_distinct(before);
                    }
                    held = held - gone.len() as u128;
                },
                None => {
                    assert(false);
                },
            }
        }
        self.current = held as usize;
    }
}

/// The memory layer: switched off, or on with its state.
#[derive(Debug)]
pub struct MemCache(Option<MemCacheInner>);

impl MemCache {
    /// Whether the layer is off.
    pub closed spec fn is_off(&self) -> bool {
        self.0 is None
    }

    /// The entries held, least recently used first; none where the layer is off.
    pub closed spec fn entries(&self) -> Seq<(Seq<u8>, Seq<u8>)> {
        match self.0 {
            Some(inner) => inner.entries(),
            None => Seq::empty(),
        }
    }

    /// The capacity in bytes; 0 where the layer is off.
    pub closed spec fn capacity(&self) -> nat {
        match self.0 {
            Some(inner) => inner.capacity(),
            None => 0,
        }
    }

    /// The number of bytes that the layer counts as held; 0 where it is off.
    pub closed spec fn held(&self) -> nat {
        match self.0 {
            Some(inner) => inner.current(),
            None => 0,
        }
    }

    /// A layer that is on is well formed and has room for at least one byte.
    pub closed spec fn wf(&self) -> bool {
        match self.0 {
            Some(inner) => inner.wf() && inner.capacity() > 0,
            None => true,
        }
    }

    /// The value that the layer holds for a raw key, if any.
    pub open spec fn cached(&self, key: Seq<u8>) -> Option<Seq<u8>> {
        value_of(self.entries(), md5_digest(key))
    }

    /// What well-formedness means: the count of bytes held is the sum of the lengths of
    /// the values, it is within the capacity, no key is held twice, and a layer is off
    /// exactly where its capacity is 0, and then it holds nothing.
    pub proof fn lemma_wf(&self)
        requires
            self.wf(),
        ensures
            self.held() == total_len(self.entries()),
            self.held() <= self.capacity(),
            distinct_keys(self.entries()),
            self.is_off() <==> self.capacity() == 0,
            self.is_off() ==> self.entries().len() == 0,
    {
    }

    /// A layer that may hold `bytes_cap` bytes; one that is off where `bytes_cap` is 0.
    pub fn new(bytes_cap: usize) -> (mem: MemCache)
        ensures
            mem.wf(),
            mem.capacity() == bytes_cap,
            mem.entries().len() == 0,
            mem.is_off() <==> bytes_cap == 0,
    {
        if bytes_cap == 0 {
            MemCache(None)
        } else {
            MemCache(Some(MemCacheInner::new(bytes_cap)))
        }
    }

    /// Whether the layer is off.
    pub fn is_nil(&self) -> (nil: bool)
        ensures
            nil == self.is_off(),
    {
        self.0.is_none()
    }

    /// Looks a key up and counts the lookup as a use of its entry. A layer that is off
    /// holds nothing.
    pub fn get(&mut self, k: &[u8]) -> (r: Option<Bytes>)
        requires
            old(self).wf(),
        ensures
            final(self).wf(),
            final(self).capacity() == old(self).capacity(),
            final(self).entries() == touched(old(self).entries(), md5_digest(k@)),
            match r {
                Some(value) => old(self).cached(k@) == Some(bytes_content(value)),
                None => old(self).cached(k@) is None,
            },
    {
        match &mut self.0 {
            Some(inner) => inner.get(k),
            None => None,
        }
    }

    /// Stores a value under a key and settles the layer within its capacity. A layer
    /// that is off stores nothing and returns `None`.
    pub fn put(&mut self, k: &[u8], v: Bytes) -> (previous: Option<Bytes>)
        requires
            old(self).wf(),
        ensures
            final(self).wf(),
            final(self).capacity() == old(self).capacity(),
            final(self).held() == total_len(final(self).entries()),
            final(self).held() <= final(self).capacity(),
            final(self).is_off() == old(self).is_off(),
            !old(self).is_off() ==> final(self).entries() == settled(
                stored(with_room(old(self).entries()), md5_digest(k@), bytes_content(v)),
                old(self).capacity(),
            ),
            old(self).is_off() ==> previous is None && final(self).entries() == old(self).entries(),
            match previous {
                Some(before) => value_of(with_room(old(self).entries()), md5_digest(k@)) == Some(
                    bytes_content(before),
                ),
                None => old(self).is_off() || value_of(
                    with_room(old(self).entries()),
                    md5_digest(k@),
                ) is None,
            },
    {
        match &mut self.0 {
            Some(inner) => inner.put(k, v),
            None => None,
        }
    }

    /// Takes the entry of a key out of the layer and returns its value. A layer that is
    /// off holds nothing.
    pub fn remove(&mut self, k: &[u8]) -> (r: Option<Bytes>)
        requires
            old(self).wf(),
        ensures
            final(self).wf(),
            final(self).capacity() == old(self).capacity(),
            final(self).is_off() == old(self).is_off(),
            final(self).held() == total_len(final(self).entries()),
            final(self).entries() == without(old(self).entries(), md5_digest(k@)),
            match r {
                Some(value) => old(self).cached(k@) == Some(bytes_content(value)),
                None => old(self).cached(k@) is None,
            },
    {
        match &mut self.0 {
            Some(inner) => inner.remove(k),
            None => {
                assert(!holds_key(self.entries(), md5_digest(k@)));
                None
            },
        }
    }

    /// Looks a key up without counting the lookup as a use.
    pub fn peek(&self, k: &[u8]) -> (r: Option<Bytes>)
        ensures
            match r {
                Some(value) => self.cached(k@) == Some(bytes_content(value)),
                None => self.cached(k@) is None,
            },
    {
        match &self.0 {
            Some(inner) => inner.peek(k),
            None => {
                assert(!holds_key(self.entries(), md5_digest(k@)));
                None
            },
        }
    }

    /// The running count of bytes held; `None` where the layer is off.
    pub fn current_size(&self) -> (size: Option<usize>)
        ensures
            match size {
                Some(n) => !self.is_off() && n == self.held(),
                None => self.is_off(),
            },
    {
        match &self.0 {
            Some(inner) => Some(inner.current),
            None => None,
        }
    }
}

} // verus!
