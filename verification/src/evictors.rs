//! Eviction by size: one scan of the metadata picks a bounded batch of the entries
//! that should go first, oldest first; the batch is removed front to back until the
//! store is small enough, and a new scan follows where the batch did not suffice.

use crate::cache::{Cache, CacheView};
use crate::error::ForcepError;
use crate::meta_db::scan_of;
use crate::metadata::{Metadata, MetadataView};
use vstd::prelude::*;
use vstd::slice::slice_to_vec;

verus! {

/// What an eviction policy keeps of an entry: its key and the one time by which the
/// policy orders entries. The earlier the time, the sooner the entry goes.
pub struct CandidateView {
    pub key: Seq<u8>,
    pub stamp: u64,
}

/// An entry as an eviction policy sees it.
pub trait EvictCandidate: Sized {
    /// The key and the time of the candidate.
    spec fn candidate(&self) -> CandidateView;

    /// The time that the policy reads off a metadata record.
    spec fn stamp_of(meta: MetadataView) -> u64;

    /// Makes the candidate for an entry.
    fn from_meta(key: Vec<u8>, meta: Metadata) -> (c: Self)
        ensures
            c.candidate() == (CandidateView { key: key@, stamp: Self::stamp_of(meta@) }),
    ;

    /// The key of the entry.
    fn key(&self) -> (k: &[u8])
        ensures
            k@ == self.candidate().key,
    ;

    /// Whether this candidate should be evicted before the other: whether its time is
    /// strictly earlier.
    fn should_evict_over(&self, other: &Self) -> (sooner: bool)
        ensures
            sooner == (self.candidate().stamp < other.candidate().stamp),
    ;
}

/// One item of a scan of the metadata.
pub type ScanItem = Result<(Vec<u8>, Metadata), ForcepError>;

/// The candidates that a list of entries stands for.
pub open spec fn candidates_of<E: EvictCandidate>(entries: Seq<E>) -> Seq<CandidateView> {
    entries.map_values(|e: E| e.candidate())
}

/// The candidate that a policy makes of a scanned item.
pub open spec fn project<E: EvictCandidate>(item: ScanItem) -> CandidateView {
    match item {
        Ok(entry) => CandidateView { key: entry.0@, stamp: E::stamp_of(entry.1@) },
        Err(_) => CandidateView { key: Seq::empty(), stamp: 0 },
    }
}

/// The candidates that a policy makes of a scan, in the order of the scan.
pub open spec fn projected<E: EvictCandidate>(items: Seq<ScanItem>) -> Seq<CandidateView> {
    items.map_values(|item: ScanItem| project::<E>(item))
}

/// Every item of the scan is a record.
pub open spec fn all_ok(items: Seq<ScanItem>) -> bool {
    forall|i: int| 0 <= i < items.len() ==> (#[trigger] items[i]) is Ok
}

/// The item at `i` is the first of the scan that is an error.
pub open spec fn first_error_at(items: Seq<ScanItem>, i: int) -> bool {
    &&& 0 <= i < items.len()
    &&& items[i] is Err
    &&& forall|j: int| 0 <= j < i ==> (#[trigger] items[j]) is Ok
}

/// The size of a scanned item's entry; 0 for an error.
pub open spec fn item_size(item: ScanItem) -> nat {
    match item {
        Ok(entry) => entry.1@.size as nat,
        Err(_) => 0,
    }
}

/// The sizes of all scanned entries together.
pub open spec fn scanned_size(items: Seq<ScanItem>) -> nat
    decreases items.len(),
{
    if items.len() == 0 {
        0
    } else {
        scanned_size(items.drop_last()) + item_size(items.last())
    }
}

/// A size as a `u64` holds it: sizes beyond `u64::MAX` are held as `u64::MAX`.
pub open spec fn capped(size: nat) -> u64 {
    if size <= u64::MAX {
        size as u64
    } else {
        u64::MAX
    }
}

/// The place of the first member of the working set that is later than `stamp`; the
/// length of the set where no member is.
pub open spec fn first_later(set: Seq<CandidateView>, stamp: u64) -> int
    decreases set.len(),
{
    if set.len() == 0 {
        0
    } else if stamp < set[0].stamp {
        0
    } else {
        1 + first_later(set.drop_first(), stamp)
    }
}

/// The working set after one more candidate was scanned. While the set has fewer than
/// `batch` members the candidate joins it. After that the candidate takes the place
/// of the first member that is later than it, if there is one.
pub open spec fn absorb(set: Seq<CandidateView>, c: CandidateView, batch: nat) -> Seq<
    CandidateView,
> {
    if set.len() < batch {
        set.push(c)
    } else if first_later(set, c.stamp) < set.len() {
        set.update(first_later(set, c.stamp), c)
    } else {
        set
    }
}

/// The working set after a whole scan.
pub open spec fn working_set(scanned: Seq<CandidateView>, batch: nat) -> Seq<CandidateView>
    decreases scanned.len(),
{
    if scanned.len() == 0 {
        Seq::empty()
    } else {
        absorb(working_set(scanned.drop_last(), batch), scanned.last(), batch)
    }
}

/// The candidates stand in the order in which they should go: earliest time first.
pub open spec fn sorted_by_stamp(queue: Seq<CandidateView>) -> bool {
    forall|i: int, j: int|
        0 <= i < j < queue.len() ==> (#[trigger] queue[i]).stamp <= (#[trigger] queue[j]).stamp
}

/// What a scan without errors gives: the size of the whole store, and as the batch
/// the members of the working set, earliest first.
pub open spec fn selected<E: EvictCandidate>(
    items: Seq<ScanItem>,
    batch: nat,
    total: u64,
    queue: Seq<CandidateView>,
) -> bool {
    &&& all_ok(items)
    &&& total == capped(scanned_size(items))
    &&& sorted_by_stamp(queue)
    &&& queue.to_multiset() == working_set(projected::<E>(items), batch).to_multiset()
}

/// What a scan with an error gives: its first error.
pub open spec fn rejected(items: Seq<ScanItem>, e: ForcepError) -> bool {
    exists|i: int| first_error_at(items, i) && #[trigger] items[i] == Err::<(Vec<u8>, Metadata), _>(e)
}

/// A place before which no member is later, and at which a member is, is the place
/// that `first_later` gives.
proof fn lemma_first_later(set: Seq<CandidateView>, stamp: u64, at: int)
    requires
        0 <= at <= set.len(),
        forall|k: int| 0 <= k < at ==> stamp >= (#[trigger] set[k]).stamp,
        at < set.len() ==> stamp < set[at].stamp,
    ensures
        first_later(set, stamp) == at,
    decreases set.len(),
{
    if set.len() > 0 && at > 0 {
        assert(stamp >= set[0].stamp);
        let rest = set.drop_first();
        assert forall|k: int| 0 <= k < at - 1 implies stamp >= (#[trigger] rest[k]).stamp by {
            assert(rest[k] == set[k + 1]);
        }
        lemma_first_later(rest, stamp, at - 1);
    }
}

/// One more scanned item adds its size.
proof fn lemma_scanned_size_step(items: Seq<ScanItem>, i: int)
    requires
        0 <= i < items.len(),
    ensures
        scanned_size(items.take(i + 1)) == scanned_size(items.take(i)) + item_size(items[i]),
{
    assert(items.take(i + 1).drop_last() =~= items.take(i));
}

/// One more scanned item is absorbed into the working set.
proof fn lemma_working_set_step<E: EvictCandidate>(items: Seq<ScanItem>, i: int, batch: nat)
    requires
        0 <= i < items.len(),
    ensures
        working_set(projected::<E>(items.take(i + 1)), batch) == absorb(
            working_set(projected::<E>(items.take(i)), batch),
            project::<E>(items[i]),
            batch,
        ),
{
    let now = projected::<E>(items.take(i + 1));
    assert(now.drop_last() =~= projected::<E>(items.take(i)));
    assert(now.last() == project::<E>(items[i]));
}

/// Puts entries in the order in which they should go: earliest time first. Entries
/// of the same time keep their order.
pub fn sort_by_stamp<E: EvictCandidate>(entries: Vec<E>) -> (sorted: Vec<E>)
    ensures
        sorted_by_stamp(candidates_of(sorted@)),
        candidates_of(sorted@).to_multiset() == candidates_of(entries@).to_multiset(),
{
    let mut rest = entries;
    let mut sorted: Vec<E> = Vec::new();
    assert(candidates_of(sorted@) =~= Seq::empty());
    assert(candidates_of(sorted@).to_multiset().add(candidates_of(rest@).to_multiset())
        =~= candidates_of(entries@).to_multiset()) by {
        broadcast use vstd::seq_lib::group_to_multiset_ensures;

    }
    while rest.len() > 0
        invariant
            sorted_by_stamp(candidates_of(sorted@)),
            forall|a: int, b: int|
                0 <= a < sorted@.len() && 0 <= b < rest@.len() ==> (
                #[trigger] sorted@[a]).candidate().stamp <= (#[trigger] rest@[b]).candidate().stamp,
            candidates_of(sorted@).to_multiset().add(candidates_of(rest@).to_multiset())
                == candidates_of(entries@).to_multiset(),
        decreases rest.len(),
    {
        let mut best: usize = 0;
        let mut j: usize = 1;
        while j < rest.len()
            invariant
                0 <= best < j <= rest.len(),
                forall|k: int|
                    0 <= k < j ==> rest@[best as int].candidate().stamp <= (
                    #[trigger] rest@[k]).candidate().stamp,
            decreases rest.len() - j,
        {
            if rest[j].should_evict_over(&rest[best]) {
                best = j;
            }
            j += 1;
        }
        let ghost before_rest = rest@;
        let ghost before_sorted = sorted@;
        let entry = rest.remove(best);
        sorted.push(entry);
        proof {
            let picked = entry.candidate();
            assert(candidates_of(sorted@) =~= candidates_of(before_sorted).push(picked));
            assert(candidates_of(rest@) =~= candidates_of(before_rest).remove(best as int));
            vstd::seq_lib::to_multiset_build(candidates_of(before_sorted), picked);
            vstd::seq_lib::to_multiset_remove(candidates_of(before_rest), best as int);
            assert(candidates_of(before_rest)[best as int] == picked);
            assert(candidates_of(before_rest).to_multiset().count(picked) > 0) by {
                broadcast use vstd::seq_lib::group_to_multiset_ensures;

                assert(candidates_of(before_rest).contains(picked));
            }
            assert(candidates_of(sorted@).to_multiset().add(candidates_of(rest@).to_multiset())
                =~= candidates_of(before_sorted).to_multiset().add(
                candidates_of(before_rest).to_multiset(),
            ));
            assert forall|a: int, b: int|
                0 <= a < sorted@.len() && 0 <= b < rest@.len() implies (
            #[trigger] sorted@[a]).candidate().stamp <= (#[trigger] rest@[b]).candidate().stamp by {
                let from = if b < best { b } else { b + 1 };
                assert(rest@[b] == before_rest[from]);
                if a < before_sorted.len() {
                    assert(sorted@[a] == before_sorted[a]);
                }
            }
            assert forall|a: int, b: int| 0 <= a < b < sorted@.len() implies (
            #[trigger] candidates_of(sorted@)[a]).stamp <= (#[trigger] candidates_of(
                sorted@,
            )[b]).stamp by {
                if b < before_sorted.len() {
                    assert(candidates_of(sorted@)[a] == candidates_of(before_sorted)[a]);
                    assert(candidates_of(sorted@)[b] == candidates_of(before_sorted)[b]);
                } else {
                    assert(sorted@[a] == before_sorted[a]);
                    assert(before_rest[best as int] == entry);
                }
            }
        }
    }
    proof {
        assert(candidates_of(rest@) =~= Seq::empty());
        assert(candidates_of(sorted@).to_multiset().add(candidates_of(rest@).to_multiset())
            =~= candidates_of(sorted@).to_multiset()) by {
            broadcast use vstd::seq_lib::group_to_multiset_ensures;

        }
    }
    sorted
}

/// Picks the batch out of a scan that was made before. Fails with the first error of
/// the scan, if it has one.
pub fn select_candidates<E: EvictCandidate>(items: Vec<ScanItem>, batch: usize) -> (r: Result<
    (u64, Vec<E>),
    ForcepError,
>)
    ensures
        match r {
            Ok(found) => selected::<E>(items@, batch as nat, found.0, candidates_of(found.1@)),
            Err(e) => rejected(items@, e),
        },
{
    let mut list = items;
    let ghost scan = list@;
    let mut at: usize = 0;
    while at < list.len()
        invariant
            list@ == scan,
            scan == items@,
            0 <= at <= list.len(),
            forall|j: int| 0 <= j < at ==> (#[trigger] scan[j]) is Ok,
        decreases list.len() - at,
    {
        if list[at].is_err() {
            let item = list.remove(at);
            match item {
                Err(e) => {
                    assert(first_error_at(scan, at as int));
                    assert(scan[at as int] == Err::<(Vec<u8>, Metadata), _>(e));
                    return Err(e);
                },
                Ok(_) => {
                    assert(false);
                },
            }
        }
        at += 1;
    }
    let mut total: u64 = 0;
    let mut entries: Vec<E> = Vec::new();
    let mut i: usize = 0;
    assert(scan.take(0) =~= Seq::empty());
    assert(projected::<E>(scan.take(0)) =~= Seq::empty());
    assert(candidates_of(entries@) =~= Seq::empty());
    while i < list.len()
        invariant
            list@ == scan,
            all_ok(scan),
            0 <= i <= list.len(),
            total == capped(scanned_size(scan.take(i as int))),
            candidates_of(entries@) == working_set(
                projected::<E>(scan.take(i as int)),
                batch as nat,
            ),
        decreases list.len() - i,
    {
        proof {
            lemma_scanned_size_step(scan, i as int);
            lemma_working_set_step::<E>(scan, i as int, batch as nat);
        }
        match &list[i] {
            Ok(entry) => {
                total = total.saturating_add(entry.1.get_size());
                let candidate = E::from_meta(slice_to_vec(entry.0.as_slice()), entry.1);
                let ghost set = candidates_of(entries@);
                if entries.len() < batch {
                    entries.push(candidate);
                    assert(candidates_of(entries@) =~= set.push(candidate.candidate()));
                } else {
                    let mut j: usize = 0;
                    while j < entries.len() && !candidate.should_evict_over(&entries[j])
                        invariant
                            0 <= j <= entries.len(),
                            candidates_of(entries@) == set,
                            forall|k: int|
                                0 <= k < j ==> candidate.candidate().stamp >= (
                                #[trigger] set[k]).stamp,
                        decreases entries.len() - j,
                    {
                        assert(set[j as int] == entries@[j as int].candidate());
                        j += 1;
                    }
                    proof {
                        if j < entries.len() {
                            assert(set[j as int] == entries@[j as int].candidate());
                        }
                        lemma_first_later(set, candidate.candidate().stamp, j as int);
                    }
                    if j < entries.len() {
                        entries.set(j, candidate);
                        assert(candidates_of(entries@) =~= set.update(
                            j as int,
                            candidate.candidate(),
                        ));
                    }
                }
            },
            Err(_) => {
                assert(false);
            },
        }
        i += 1;
    }
    assert(scan.take(i as int) =~= scan);
    Ok((total, sort_by_stamp(entries)))
}

/// What a scan of a store gives a policy: the batch and the size of the store, or
/// the first error of the scan.
pub open spec fn batch_found<E: EvictCandidate>(
    records: Map<Seq<u8>, Seq<u8>>,
    batch: nat,
    r: Result<(u64, Seq<CandidateView>), ForcepError>,
) -> bool {
    exists|items: Seq<ScanItem>|
        #![auto]
        scan_of(items, records) && match r {
            Ok(found) => selected::<E>(items, batch, found.0, found.1),
            Err(e) => rejected(items, e),
        }
}

/// Scans the metadata of a cache once and picks the batch: the size of the whole
/// store, and at most `batch` entries in the order in which they should go.
pub fn find_evict_candidates<E: EvictCandidate>(cache: &Cache, batch: usize) -> (r: Result<
    (u64, Vec<E>),
    ForcepError,
>)
    ensures
        batch_found::<E>(
            cache@.records,
            batch as nat,
            match r {
                Ok(found) => Ok((found.0, candidates_of(found.1@))),
                Err(e) => Err(e),
            },
        ),
{
    let items = cache.metadata_iter();
    select_candidates(items, batch)
}

/// What the caller reports back to a running eviction.
pub enum EvictEvent {
    /// Nothing yet: the eviction begins.
    Start,
    /// The entry that the last step named was removed; this was its record.
    Removed(Metadata),
    /// The entry that the last step named could not be removed; this is why.
    Failed(ForcepError),
}

/// What a running eviction asks for next.
pub enum EvictStep {
    /// Remove the entry with this key from the cache, then come back with its record.
    Remove(Vec<u8>),
    /// The store is small enough, or empty: the eviction is over.
    Finished,
}

/// The state of one eviction by size, as the contracts see it.
pub struct EvictionView {
    /// The size in bytes at which the eviction stops.
    pub min_size: u64,
    /// How many candidates one scan may pick.
    pub batch_size: usize,
    /// The size of the store as far as the eviction knows it.
    pub total: u64,
    /// The candidates of the last scan that have not been named yet, first to go first.
    pub pending: Seq<CandidateView>,
}

/// One eviction by size in progress.
pub struct SizeEviction<E> {
    min_size: u64,
    batch_size: usize,
    total: u64,
    queue: Vec<E>,
    next: usize,
}

/// A total with a size taken off, and never below 0.
pub open spec fn less(total: u64, size: u64) -> u64 {
    if size <= total {
        (total - size) as u64
    } else {
        0
    }
}

/// The size of the store after an event: a removal takes the removed entry's recorded
/// size off.
pub open spec fn after_event(total: u64, event: EvictEvent) -> u64 {
    match event {
        EvictEvent::Start => total,
        EvictEvent::Removed(meta) => less(total, meta@.size),
        EvictEvent::Failed(_) => total,
    }
}

/// The decision on a batch: the eviction is over where no candidate is pending or the
/// store is at or below the target; otherwise the first pending candidate is named.
pub open spec fn decided(
    min_size: u64,
    total: u64,
    pending: Seq<CandidateView>,
    post: EvictionView,
    step: EvictStep,
) -> bool {
    &&& post.total == total
    &&& if pending.len() == 0 || total <= min_size {
        step is Finished && post.pending == pending
    } else {
        step matches EvictStep::Remove(key) && key@ == pending[0].key && post.pending
            == pending.drop_first()
    }
}

/// One step of an eviction. A removal that failed is fatal: the step returns its
/// error, names no entry, and drops what was pending, so that the entry is neither
/// tried again nor passed over. Otherwise, while candidates are pending the decision
/// is taken on them; when none is left the store is scanned anew and the decision is
/// taken on the fresh batch and the fresh size. A failed scan ends the step with its
/// error.
pub open spec fn evict_stepped<E: EvictCandidate>(
    pre: EvictionView,
    records: Map<Seq<u8>, Seq<u8>>,
    event: EvictEvent,
    post: EvictionView,
    r: Result<EvictStep, ForcepError>,
) -> bool {
    &&& post.min_size == pre.min_size
    &&& post.batch_size == pre.batch_size
    &&& if event is Failed {
        r == Err::<EvictStep, _>(event->Failed_0) && post.total == pre.total && post.pending.len()
            == 0
    } else if pre.pending.len() > 0 {
        r matches Ok(step) && decided(
            pre.min_size,
            after_event(pre.total, event),
            pre.pending,
            post,
            step,
        )
    } else {
        match r {
            Ok(step) => exists|total: u64, queue: Seq<CandidateView>|
                #![auto]
                batch_found::<E>(records, pre.batch_size as nat, Ok((total, queue))) && decided(
                    pre.min_size,
                    total,
                    queue,
                    post,
                    step,
                ),
            Err(e) => batch_found::<E>(records, pre.batch_size as nat, Err(e)) && post.total
                == after_event(pre.total, event) && post.pending == pre.pending,
        }
    }
}

impl<E: EvictCandidate> View for SizeEviction<E> {
    type V = EvictionView;

    closed spec fn view(&self) -> EvictionView {
        EvictionView {
            min_size: self.min_size,
            batch_size: self.batch_size,
            total: self.total,
            pending: candidates_of(self.queue@).skip(self.next as int),
        }
    }
}

impl<E: EvictCandidate> SizeEviction<E> {
    /// The place of the next candidate lies within the batch.
    pub closed spec fn wf(&self) -> bool {
        self.next <= self.queue@.len()
    }

    /// An eviction that has not scanned yet.
    pub fn new(min_size: u64, batch_size: usize) -> (run: Self)
        ensures
            run.wf(),
            run@ == (EvictionView { min_size, batch_size, total: 0, pending: Seq::empty() }),
    {
        let run = SizeEviction { min_size, batch_size, total: 0, queue: Vec::new(), next: 0 };
        assert(run@.pending =~= Seq::empty());
        run
    }

    /// Takes the decision on the pending candidates.
    fn decide(&mut self) -> (step: EvictStep)
        requires
            old(self).wf(),
        ensures
            final(self).wf(),
            final(self)@.min_size == old(self)@.min_size,
            final(self)@.batch_size == old(self)@.batch_size,
            decided(old(self)@.min_size, old(self)@.total, old(self)@.pending, final(self)@, step),
    {
        if self.next >= self.queue.len() || self.total <= self.min_size {
            EvictStep::Finished
        } else {
            let key = slice_to_vec(self.queue[self.next].key());
            proof {
                let all = candidates_of(self.queue@);
                assert(all.skip(self.next as int)[0] == self.queue@[self.next as int].candidate());
                assert(all.skip(self.next as int).drop_first() =~= all.skip(self.next + 1));
            }
            self.next = self.next + 1;
            EvictStep::Remove(key)
        }
    }

    /// One step of the eviction. Begin with `EvictEvent::Start`; after a `Remove` step,
    /// remove the entry from the cache and come back with its record, or with the
    /// reason why it could not be removed. A removal that failed ends the eviction with
    /// that error.
    pub fn step(&mut self, cache: &Cache, event: EvictEvent) -> (r: Result<EvictStep, ForcepError>)
        requires
            old(self).wf(),
        ensures
            final(self).wf(),
            evict_stepped::<E>(old(self)@, cache@.records, event, final(self)@, r),
    {
        match event {
            EvictEvent::Start => {},
            EvictEvent::Removed(meta) => {
                self.total = self.total.saturating_sub(meta.get_size());
            },
            EvictEvent::Failed(failure) => {
                self.queue = Vec::new();
                self.next = 0;
                assert(self@.pending =~= Seq::empty());
                return Err(failure);
            },
        }
        let ghost total_now = self.total;
        assert(total_now == after_event(old(self)@.total, event));
        if self.next >= self.queue.len() {
            assert(old(self)@.pending.len() == 0);
            match find_evict_candidates::<E>(cache, self.batch_size) {
                Ok(found) => {
                    let (total, queue) = found;
                    let ghost fresh = candidates_of(queue@);
                    self.total = total;
                    self.queue = queue;
                    self.next = 0;
                    assert(self@.pending =~= fresh);
                    let step = self.decide();
                    assert(batch_found::<E>(
                        cache@.records,
                        old(self)@.batch_size as nat,
                        Ok((total, fresh)),
                    ));
                    assert(decided(old(self)@.min_size, total, fresh, self@, step));
                    Ok(step)
                },
                Err(e) => {
                    assert(self@.pending == old(self)@.pending);
                    Err(e)
                },
            }
        } else {
            assert(old(self)@.pending.len() > 0);
            assert(self@.pending == old(self)@.pending);
            let step = self.decide();
            assert(decided(old(self)@.min_size, total_now, old(self)@.pending, self@, step));
            Ok(step)
        }
    }
}

/// Something that can evict entries from a cache. It says, step by step, which entry to
/// remove next, until its own stopping condition is met.
pub trait Evictor: Sized {
    /// The error with which the evictor can fail.
    type Err;

    /// Whether the evictor is in a state from which it can go on.
    spec fn ready(&self) -> bool;

    /// What one step does: how the state after it and its outcome hang together with
    /// the state before it, the cache and the event.
    spec fn stepped(
        pre: Self,
        cache: CacheView,
        event: EvictEvent,
        post: Self,
        r: Result<EvictStep, Self::Err>,
    ) -> bool;

    /// One step of the eviction. Begin with `EvictEvent::Start`; after a `Remove` step,
    /// remove the entry from the cache and come back with its record, or with the
    /// reason why it could not be removed.
    fn evict(&mut self, cache: &Cache, event: EvictEvent) -> (r: Result<EvictStep, Self::Err>)
        requires
            old(self).ready(),
        ensures
            final(self).ready(),
            Self::stepped(*old(self), cache@, event, *final(self), r),
    ;
}

impl<E: EvictCandidate> Evictor for SizeEviction<E> {
    type Err = ForcepError;

    open spec fn ready(&self) -> bool {
        self.wf()
    }

    open spec fn stepped(
        pre: Self,
        cache: CacheView,
        event: EvictEvent,
        post: Self,
        r: Result<EvictStep, ForcepError>,
    ) -> bool {
        evict_stepped::<E>(pre@, cache.records, event, post@, r)
    }

    fn evict(&mut self, cache: &Cache, event: EvictEvent) -> (r: Result<EvictStep, ForcepError>) {
        self.step(cache, event)
    }
}

/// The candidate of the least-recently-used policy: ordered by the time of last access.
#[derive(Debug)]
pub struct LruEc {
    key: Vec<u8>,
    last_access: u64,
}

impl EvictCandidate for LruEc {
    closed spec fn candidate(&self) -> CandidateView {
        CandidateView { key: self.key@, stamp: self.last_access }
    }

    open spec fn stamp_of(meta: MetadataView) -> u64 {
        meta.last_accessed
    }

    fn from_meta(key: Vec<u8>, meta: Metadata) -> (c: Self) {
        LruEc { key, last_access: meta.get_last_accessed_raw() }
    }

    fn key(&self) -> (k: &[u8]) {
        self.key.as_slice()
    }

    fn should_evict_over(&self, other: &Self) -> (sooner: bool) {
        self.last_access < other.last_access
    }
}

/// The candidate of the first-in-first-out policy: ordered by the time of writing.
#[derive(Debug)]
pub struct FifoEc {
    key: Vec<u8>,
    last_modified: u64,
}

impl EvictCandidate for FifoEc {
    closed spec fn candidate(&self) -> CandidateView {
        CandidateView { key: self.key@, stamp: self.last_modified }
    }

    open spec fn stamp_of(meta: MetadataView) -> u64 {
        meta.last_modified
    }

    fn from_meta(key: Vec<u8>, meta: Metadata) -> (c: Self) {
        FifoEc { key, last_modified: meta.get_last_modified_raw() }
    }

    fn key(&self) -> (k: &[u8]) {
        self.key.as_slice()
    }

    fn should_evict_over(&self, other: &Self) -> (sooner: bool) {
        self.last_modified < other.last_modified
    }
}

/// What an evictor by size is set to.
pub struct EvictorView {
    /// The size in bytes to which the store is shrunk.
    pub min_size: u64,
    /// How many candidates one scan may pick.
    pub batch_size: usize,
}

/// Evicts the entries that were read longest ago until the store is at or below a
/// target size. Without access tracking the time of last access is the time of
/// writing, and this evictor does what [`FifoEvictor`] does.
#[derive(Debug, Clone, Copy)]
pub struct LruEvictor {
    min_sz: u64,
    batch_size: usize,
}

impl View for LruEvictor {
    type V = EvictorView;

    closed spec fn view(&self) -> EvictorView {
        EvictorView { min_size: self.min_sz, batch_size: self.batch_size }
    }
}

impl LruEvictor {
    /// An evictor that shrinks the store to `min_size` bytes, in batches of 250.
    pub fn new(min_size: u64) -> (evictor: Self)
        ensures
            evictor@ == (EvictorView { min_size, batch_size: 250 }),
    {
        LruEvictor { min_sz: min_size, batch_size: 250 }
    }

    /// Sets how many candidates one scan may pick.
    pub fn set_batch_size(self, size: usize) -> (evictor: Self)
        ensures
            evictor@ == (EvictorView { min_size: self@.min_size, batch_size: size }),
    {
        let mut evictor = self;
        evictor.batch_size = size;
        evictor
    }

    /// The size in bytes to which the store is shrunk.
    pub fn min_size(&self) -> (size: u64)
        ensures
            size == self@.min_size,
    {
        self.min_sz
    }

    /// How many candidates one scan may pick.
    pub fn batch_size(&self) -> (size: usize)
        ensures
            size == self@.batch_size,
    {
        self.batch_size
    }

    /// Begins an eviction with this evictor's settings.
    pub fn evict_to_min_size(&self) -> (run: SizeEviction<LruEc>)
        ensures
            run.wf(),
            run@ == (EvictionView {
                min_size: self@.min_size,
                batch_size: self@.batch_size,
                total: 0,
                pending: Seq::empty(),
            }),
    {
        SizeEviction::new(self.min_sz, self.batch_size)
    }
}

/// Evicts the entries that were written longest ago until the store is at or below a
/// target size. Reads do not change the order.
#[derive(Debug, Clone, Copy)]
pub struct FifoEvictor {
    min_sz: u64,
    batch_size: usize,
}

impl View for FifoEvictor {
    type V = EvictorView;

    closed spec fn view(&self) -> EvictorView {
        EvictorView { min_size: self.min_sz, batch_size: self.batch_size }
    }
}

impl FifoEvictor {
    /// An evictor that shrinks the store to `min_size` bytes, in batches of 250.
    pub fn new(min_size: u64) -> (evictor: Self)
        ensures
            evictor@ == (EvictorView { min_size, batch_size: 250 }),
    {
        FifoEvictor { min_sz: min_size, batch_size: 250 }
    }

    /// Sets how many candidates one scan may pick.
    pub fn set_batch_size(self, size: usize) -> (evictor: Self)
        ensures
            evictor@ == (EvictorView { min_size: self@.min_size, batch_size: size }),
    {
        let mut evictor = self;
        evictor.batch_size = size;
        evictor
    }

    /// The size in bytes to which the store is shrunk.
    pub fn min_size(&self) -> (size: u64)
        ensures
            size == self@.min_size,
    {
        self.min_sz
    }

    /// How many candidates one scan may pick.
    pub fn batch_size(&self) -> (size: usize)
        ensures
            size == self@.batch_size,
    {
        self.batch_size
    }

    /// Begins an eviction with this evictor's settings.
    pub fn evict_to_min_size(&self) -> (run: SizeEviction<FifoEc>)
        ensures
            run.wf(),
            run@ == (EvictionView {
                min_size: self@.min_size,
                batch_size: self@.batch_size,
                total: 0,
                pending: Seq::empty(),
            }),
    {
        SizeEviction::new(self.min_sz, self.batch_size)
    }
}

} // verus!
