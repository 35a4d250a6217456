//! What holds of the batch that a scan picks, and of an eviction that runs on it.

use crate::cache::CacheView;
use crate::evictors::{
    after_event, all_ok, batch_found, decided, evict_stepped, first_later, less, project,
    projected, scanned_size, selected, sorted_by_stamp, working_set, CandidateView,
    EvictCandidate, EvictEvent, EvictStep, EvictionView, FifoEc, LruEc, ScanItem,
};
use crate::laws::{lemma_read_counts_once, read_served};
use crate::meta_db::{item_of, lists_records, scan_of};
use crate::metadata::{decoded_record, fresh_record};
use vstd::prelude::*;

verus! {

/// The place that `first_later` gives lies within the set or just behind it; the
/// member there is later than the time asked for, and no member before it is.
pub proof fn lemma_first_later_is_first(set: Seq<CandidateView>, stamp: u64)
    ensures
        0 <= first_later(set, stamp) <= set.len(),
        first_later(set, stamp) < set.len() ==> stamp < set[first_later(set, stamp)].stamp,
        forall|k: int| 0 <= k < first_later(set, stamp) ==> (#[trigger] set[k]).stamp <= stamp,
    decreases set.len(),
{
    if set.len() == 0 || stamp < set[0].stamp {
    } else {
        let rest = set.drop_first();
        lemma_first_later_is_first(rest, stamp);
        let at = first_later(rest, stamp);
        assert(first_later(set, stamp) == at + 1);
        if at < rest.len() {
            assert(rest[at] == set[at + 1]);
        }
        assert forall|k: int| 0 <= k < at + 1 implies (#[trigger] set[k]).stamp <= stamp by {
            if k > 0 {
                assert(set[k] == rest[k - 1]);
            }
        }
    }
}

/// The working set holds as many candidates as were scanned, up to the batch size.
pub proof fn lemma_working_set_len(scanned: Seq<CandidateView>, batch: nat)
    ensures
        working_set(scanned, batch).len() == if scanned.len() <= batch {
            scanned.len()
        } else {
            batch
        },
    decreases scanned.len(),
{
    if scanned.len() > 0 {
        lemma_working_set_len(scanned.drop_last(), batch);
        let set = working_set(scanned.drop_last(), batch);
        lemma_first_later_is_first(set, scanned.last().stamp);
    }
}

/// A batch size that covers the scan makes every scanned candidate a member of the
/// working set, in the order of the scan.
pub proof fn lemma_covering_batch_takes_all(scanned: Seq<CandidateView>, batch: nat)
    requires
        scanned.len() <= batch,
    ensures
        working_set(scanned, batch) == scanned,
    decreases scanned.len(),
{
    if scanned.len() > 0 {
        lemma_covering_batch_takes_all(scanned.drop_last(), batch);
        assert(scanned.drop_last().push(scanned.last()) =~= scanned);
    } else {
        assert(working_set(scanned, batch) =~= scanned);
    }
}

/// Every member of the working set was scanned, and where anything was scanned and
/// the batch size is not 0, some member is as early as every scanned candidate.
pub proof fn lemma_working_set_holds_earliest(scanned: Seq<CandidateView>, batch: nat)
    ensures
        forall|j: int|
            0 <= j < working_set(scanned, batch).len() ==> scanned.contains(
                #[trigger] working_set(scanned, batch)[j],
            ),
        scanned.len() > 0 && batch > 0 ==> exists|j: int|
            0 <= j < working_set(scanned, batch).len() && forall|i: int|
                0 <= i < scanned.len() ==> (#[trigger] working_set(scanned, batch)[j]).stamp <= (
                #[trigger] scanned[i]).stamp,
    decreases scanned.len(),
{
    if scanned.len() > 0 {
        let earlier = scanned.drop_last();
        let c = scanned.last();
        let set = working_set(earlier, batch);
        let next = working_set(scanned, batch);
        lemma_working_set_holds_earliest(earlier, batch);
        lemma_working_set_len(earlier, batch);
        lemma_first_later_is_first(set, c.stamp);
        let at = first_later(set, c.stamp);
        assert(scanned[scanned.len() - 1] == c);
        assert forall|j: int| 0 <= j < next.len() implies scanned.contains(#[trigger] next[j]) by {
            if next[j] != c {
                assert(next[j] == set[j]);
                assert(earlier.contains(set[j]));
                let i = choose|i: int| 0 <= i < earlier.len() && earlier[i] == set[j];
                assert(scanned[i] == set[j]);
            }
        }
        if batch > 0 {
            if earlier.len() == 0 {
                assert(next[0] == c);
                assert forall|i: int| 0 <= i < scanned.len() implies (#[trigger] next[0]).stamp <= (
                #[trigger] scanned[i]).stamp by {
                    assert(scanned[i] == c);
                }
            } else {
                let low = choose|j: int|
                    0 <= j < set.len() && forall|i: int|
                        0 <= i < earlier.len() ==> (#[trigger] set[j]).stamp <= (
                        #[trigger] earlier[i]).stamp;
                // the place at which the earliest member stands after the step
                let best = if set.len() < batch {
                    if c.stamp < set[low].stamp {
                        set.len() as int
                    } else {
                        low
                    }
                } else if at < set.len() && (at == low || c.stamp < set[low].stamp) {
                    at
                } else {
                    low
                };
                assert(0 <= best < next.len());
                assert forall|i: int| 0 <= i < scanned.len() implies (
                #[trigger] next[best]).stamp <= (#[trigger] scanned[i]).stamp by {
                    if i < earlier.len() {
                        assert(scanned[i] == earlier[i]);
                        assert(set[low].stamp <= earlier[i].stamp);
                    }
                    if set.len() >= batch && at >= set.len() {
                        assert(set[low].stamp <= c.stamp);
                    }
                }
            }
        }
    }
}

/// The first candidate of a batch is as early as every entry of the store that was
/// scanned: each scan puts a least recently used entry first.
pub proof fn lemma_batch_begins_with_earliest<E: EvictCandidate>(
    items: Seq<ScanItem>,
    batch: nat,
    total: u64,
    queue: Seq<CandidateView>,
)
    requires
        selected::<E>(items, batch, total, queue),
        items.len() > 0,
        batch > 0,
    ensures
        queue.len() > 0,
        forall|i: int| 0 <= i < items.len() ==> queue[0].stamp <= (#[trigger] project::<E>(items[i])).stamp,
        exists|i: int| 0 <= i < items.len() && #[trigger] project::<E>(items[i]) == queue[0],
{
    broadcast use vstd::seq_lib::group_to_multiset_ensures;

    let scanned = projected::<E>(items);
    let set = working_set(scanned, batch);
    lemma_working_set_len(scanned, batch);
    lemma_working_set_holds_earliest(scanned, batch);
    queue.to_multiset_ensures();
    set.to_multiset_ensures();
    assert(queue.len() == set.len());
    let low = choose|j: int|
        0 <= j < set.len() && forall|i: int|
            0 <= i < scanned.len() ==> (#[trigger] set[j]).stamp <= (#[trigger] scanned[i]).stamp;
    assert(set.contains(set[low]));
    assert(queue.to_multiset().count(set[low]) > 0);
    assert(queue.contains(set[low]));
    let at = choose|at: int| 0 <= at < queue.len() && queue[at] == set[low];
    assert(queue[0].stamp <= queue[at].stamp);
    assert forall|i: int| 0 <= i < items.len() implies queue[0].stamp <= (#[trigger] project::<E>(
        items[i],
    )).stamp by {
        assert(scanned[i] == project::<E>(items[i]));
    }
    assert(queue.contains(queue[0]));
    assert(set.to_multiset().count(queue[0]) > 0);
    assert(set.contains(queue[0]));
    let member = choose|j: int| 0 <= j < set.len() && set[j] == queue[0];
    assert(scanned.contains(set[member]));
    let from = choose|i: int| 0 <= i < scanned.len() && scanned[i] == queue[0];
    assert(project::<E>(items[from]) == queue[0]);
}

/// A batch size that covers the store makes the batch the whole store, earliest first.
pub proof fn lemma_covering_batch_is_whole_store<E: EvictCandidate>(
    items: Seq<ScanItem>,
    batch: nat,
    total: u64,
    queue: Seq<CandidateView>,
)
    requires
        selected::<E>(items, batch, total, queue),
        items.len() <= batch,
    ensures
        sorted_by_stamp(queue),
        queue.to_multiset() == projected::<E>(items).to_multiset(),
{
    lemma_covering_batch_takes_all(projected::<E>(items), batch);
}

/// With a batch size that is not 0, an empty batch means an empty store.
pub proof fn lemma_empty_batch_means_empty_store<E: EvictCandidate>(
    items: Seq<ScanItem>,
    batch: nat,
    total: u64,
    queue: Seq<CandidateView>,
)
    requires
        selected::<E>(items, batch, total, queue),
        batch > 0,
        queue.len() == 0,
    ensures
        items.len() == 0,
{
    let set = working_set(projected::<E>(items), batch);
    lemma_working_set_len(projected::<E>(items), batch);
    queue.to_multiset_ensures();
    set.to_multiset_ensures();
}

/// A scan of an empty store that does not fail hands out nothing.
pub proof fn lemma_empty_store_scans_empty(items: Seq<ScanItem>)
    requires
        scan_of(items, Map::<Seq<u8>, Seq<u8>>::empty()),
        all_ok(items),
    ensures
        items.len() == 0,
{
    if items.len() > 0 {
        assert(items.last() is Ok);
        let pairs = choose|pairs: Seq<(Seq<u8>, Seq<u8>)>|
            #![auto]
            lists_records(pairs, Map::<Seq<u8>, Seq<u8>>::empty()) && pairs.len() == items.len();
        assert(Map::<Seq<u8>, Seq<u8>>::empty().contains_key(pairs[0].0));
    }
}

/// Empty store. An eviction that comes to scan an empty store is over at once: the
/// step names no entry. (It can still fail, where the store itself fails.)
pub proof fn lemma_empty_store_finishes<E: EvictCandidate>(
    pre: EvictionView,
    event: EvictEvent,
    post: EvictionView,
    step: EvictStep,
)
    requires
        pre.pending.len() == 0,
        evict_stepped::<E>(pre, Map::<Seq<u8>, Seq<u8>>::empty(), event, post, Ok(step)),
    ensures
        step is Finished,
        post.pending.len() == 0,
{
    broadcast use vstd::seq_lib::group_to_multiset_ensures;

    let records = Map::<Seq<u8>, Seq<u8>>::empty();
    let (total, queue) = choose|total: u64, queue: Seq<CandidateView>|
        #![auto]
        batch_found::<E>(records, pre.batch_size as nat, Ok((total, queue))) && decided(
            pre.min_size,
            total,
            queue,
            post,
            step,
        );
    let items = choose|items: Seq<ScanItem>|
        #![auto]
        scan_of(items, records) && selected::<E>(items, pre.batch_size as nat, total, queue);
    lemma_empty_store_scans_empty(items);
    assert(projected::<E>(items) =~= Seq::empty());
    queue.to_multiset_ensures();
    working_set(projected::<E>(items), pre.batch_size as nat).to_multiset_ensures();
    assert(queue.len() == working_set(projected::<E>(items), pre.batch_size as nat).len());
}

/// Every record of the store can be decoded.
pub open spec fn readable(records: Map<Seq<u8>, Seq<u8>>) -> bool {
    forall|k: Seq<u8>| #[trigger] records.contains_key(k) ==> decoded_record(records[k]) is Some
}

/// The size that a stored record gives for its entry; 0 where it cannot be decoded.
pub open spec fn stored_size(bytes: Seq<u8>) -> nat {
    match decoded_record(bytes) {
        Some(m) => m.size as nat,
        None => 0,
    }
}

/// The sizes that the listed records give, together.
pub open spec fn listed_size(pairs: Seq<(Seq<u8>, Seq<u8>)>) -> nat
    decreases pairs.len(),
{
    if pairs.len() == 0 {
        0
    } else {
        listed_size(pairs.drop_last()) + stored_size(pairs.last().1)
    }
}

/// The store has finitely many records: they can be listed.
pub open spec fn listable(records: Map<Seq<u8>, Seq<u8>>) -> bool {
    exists|pairs: Seq<(Seq<u8>, Seq<u8>)>| lists_records(pairs, records)
}

/// The size of the store: the sizes that its records give, together.
pub open spec fn store_size(records: Map<Seq<u8>, Seq<u8>>) -> nat {
    listed_size(choose|pairs: Seq<(Seq<u8>, Seq<u8>)>| lists_records(pairs, records))
}

/// The time by which a policy orders the entry of a key.
pub open spec fn stamp_in<E: EvictCandidate>(records: Map<Seq<u8>, Seq<u8>>, key: Seq<u8>) -> u64 {
    E::stamp_of(decoded_record(records[key])->0)
}

/// The entry of `key` is one that should go first: the store has no entry of an
/// earlier time.
pub open spec fn goes_first<E: EvictCandidate>(
    records: Map<Seq<u8>, Seq<u8>>,
    key: Seq<u8>,
) -> bool {
    &&& records.contains_key(key)
    &&& forall|k: Seq<u8>| #[trigger]
        records.contains_key(k) ==> stamp_in::<E>(records, key) <= stamp_in::<E>(records, k)
}

/// Taking one pair out of a listing takes its size off.
proof fn lemma_listed_size_remove(pairs: Seq<(Seq<u8>, Seq<u8>)>, at: int)
    requires
        0 <= at < pairs.len(),
    ensures
        listed_size(pairs.remove(at)) + stored_size(pairs[at].1) == listed_size(pairs),
    decreases pairs.len(),
{
    if at == pairs.len() - 1 {
        assert(pairs.remove(at) =~= pairs.drop_last());
    } else {
        assert(pairs.remove(at).drop_last() =~= pairs.drop_last().remove(at));
        assert(pairs.remove(at).last() == pairs.last());
        lemma_listed_size_remove(pairs.drop_last(), at);
    }
}

/// A listing without one pair lists the store without that key.
proof fn lemma_listing_without(
    pairs: Seq<(Seq<u8>, Seq<u8>)>,
    records: Map<Seq<u8>, Seq<u8>>,
    at: int,
)
    requires
        lists_records(pairs, records),
        0 <= at < pairs.len(),
    ensures
        lists_records(pairs.remove(at), records.remove(pairs[at].0)),
{
    let rest = pairs.remove(at);
    let key = pairs[at].0;
    let fewer = records.remove(key);
    assert forall|i: int| 0 <= i < rest.len() implies fewer.contains_key((#[trigger] rest[i]).0)
        && fewer[rest[i].0] == rest[i].1 by {
        let from = if i < at { i } else { i + 1 };
        assert(rest[i] == pairs[from]);
        if from < at {
            assert(pairs[from].0 != pairs[at].0);
        } else {
            assert(pairs[at].0 != pairs[from].0);
        }
    }
    assert forall|i: int, j: int| 0 <= i < j < rest.len() implies (#[trigger] rest[i]).0 != (
    #[trigger] rest[j]).0 by {
        let a = if i < at { i } else { i + 1 };
        let b = if j < at { j } else { j + 1 };
        assert(rest[i] == pairs[a]);
        assert(rest[j] == pairs[b]);
    }
    assert forall|k: Seq<u8>| #[trigger] fewer.contains_key(k) implies exists|i: int|
        0 <= i < rest.len() && (#[trigger] rest[i]).0 == k by {
        assert(records.contains_key(k));
        let from = choose|i: int| 0 <= i < pairs.len() && (#[trigger] pairs[i]).0 == k;
        let to = if from < at { from } else { from - 1 };
        assert(rest[to] == pairs[from]);
    }
}

/// Two listings of one store give the same size.
pub proof fn lemma_listings_agree(
    p: Seq<(Seq<u8>, Seq<u8>)>,
    q: Seq<(Seq<u8>, Seq<u8>)>,
    records: Map<Seq<u8>, Seq<u8>>,
)
    requires
        lists_records(p, records),
        lists_records(q, records),
    ensures
        listed_size(p) == listed_size(q),
        p.len() == q.len(),
    decreases p.len(),
{
    if p.len() == 0 {
        if q.len() > 0 {
            assert(records.contains_key(q[0].0));
            let i = choose|i: int| 0 <= i < p.len() && (#[trigger] p[i]).0 == q[0].0;
        }
    } else {
        let last = p.len() - 1;
        let key = p[last].0;
        assert(records.contains_key(key));
        let at = choose|i: int| 0 <= i < q.len() && (#[trigger] q[i]).0 == key;
        lemma_listing_without(p, records, last);
        lemma_listing_without(q, records, at);
        assert(p.remove(last) =~= p.drop_last());
        lemma_listings_agree(p.drop_last(), q.remove(at), records.remove(key));
        lemma_listed_size_remove(q, at);
        assert(q[at].1 == records[key]);
        assert(p[last].1 == records[key]);
    }
}

/// The size of a store is the size that any listing of it gives.
pub proof fn lemma_store_size_of_listing(
    pairs: Seq<(Seq<u8>, Seq<u8>)>,
    records: Map<Seq<u8>, Seq<u8>>,
)
    requires
        lists_records(pairs, records),
    ensures
        store_size(records) == listed_size(pairs),
        listable(records),
{
    let chosen = choose|pairs: Seq<(Seq<u8>, Seq<u8>)>| lists_records(pairs, records);
    lemma_listings_agree(chosen, pairs, records);
}

/// Taking a record out of a store takes its size off the size of the store.
pub proof fn lemma_store_size_after_removal(records: Map<Seq<u8>, Seq<u8>>, key: Seq<u8>)
    requires
        listable(records),
        records.contains_key(key),
    ensures
        listable(records.remove(key)),
        store_size(records.remove(key)) + stored_size(records[key]) == store_size(records),
{
    let pairs = choose|pairs: Seq<(Seq<u8>, Seq<u8>)>| lists_records(pairs, records);
    let at = choose|i: int| 0 <= i < pairs.len() && (#[trigger] pairs[i]).0 == key;
    lemma_listing_without(pairs, records, at);
    lemma_listed_size_remove(pairs, at);
    lemma_store_size_of_listing(pairs, records);
    lemma_store_size_of_listing(pairs.remove(at), records.remove(key));
}

/// The candidate that a policy makes of the record of a key.
pub open spec fn candidate_in<E: EvictCandidate>(
    records: Map<Seq<u8>, Seq<u8>>,
    key: Seq<u8>,
) -> CandidateView {
    CandidateView { key, stamp: stamp_in::<E>(records, key) }
}

/// The batch size is at least the number of records of the store.
pub open spec fn covered(records: Map<Seq<u8>, Seq<u8>>, batch: nat) -> bool {
    forall|pairs: Seq<(Seq<u8>, Seq<u8>)>| #[trigger]
        lists_records(pairs, records) ==> pairs.len() <= batch
}

/// The pending candidates are the entries of the store, each once and as the policy
/// sees it.
pub open spec fn covers<E: EvictCandidate>(
    pending: Seq<CandidateView>,
    records: Map<Seq<u8>, Seq<u8>>,
) -> bool {
    &&& forall|i: int|
        0 <= i < pending.len() ==> records.contains_key((#[trigger] pending[i]).key) && pending[i]
            == candidate_in::<E>(records, pending[i].key)
    &&& forall|i: int, j: int|
        0 <= i < j < pending.len() ==> (#[trigger] pending[i]).key != (#[trigger] pending[j]).key
    &&& forall|k: Seq<u8>| #[trigger]
        records.contains_key(k) ==> exists|i: int|
            0 <= i < pending.len() && (#[trigger] pending[i]).key == k
}

/// An eviction is in step with a store where, as long as candidates are pending, they
/// are the entries of the store in the order in which they should go, and the size
/// that the eviction has in mind is the size of the store.
pub open spec fn in_step<E: EvictCandidate>(
    pending: Seq<CandidateView>,
    total: u64,
    records: Map<Seq<u8>, Seq<u8>>,
) -> bool {
    pending.len() > 0 ==> covers::<E>(pending, records) && sorted_by_stamp(pending) && total
        == store_size(records)
}

/// A scan without errors measures the store: every record can be decoded, the sizes
/// scanned are the size of the store, and the candidates scanned are the entries of
/// the store, each once.
pub proof fn lemma_scan_measures_store<E: EvictCandidate>(
    items: Seq<ScanItem>,
    records: Map<Seq<u8>, Seq<u8>>,
) -> (pairs: Seq<(Seq<u8>, Seq<u8>)>)
    requires
        scan_of(items, records),
        all_ok(items),
    ensures
        lists_records(pairs, records),
        pairs.len() == items.len(),
        readable(records),
        listable(records),
        scanned_size(items) == store_size(records),
        forall|i: int|
            0 <= i < items.len() ==> #[trigger] project::<E>(items[i]) == candidate_in::<E>(
                records,
                pairs[i].0,
            ),
{
    if items.len() > 0 {
        assert(items.last() is Ok);
    }
    let pairs = choose|pairs: Seq<(Seq<u8>, Seq<u8>)>|
        #![auto]
        lists_records(pairs, records) && pairs.len() == items.len() && forall|i: int|
            0 <= i < items.len() ==> item_of(items[i], pairs[i]);
    assert forall|k: Seq<u8>| #[trigger] records.contains_key(k) implies decoded_record(
        records[k],
    ) is Some by {
        let i = choose|i: int| 0 <= i < pairs.len() && (#[trigger] pairs[i]).0 == k;
        assert(items[i] is Ok);
        assert(item_of(items[i], pairs[i]));
    }
    lemma_scanned_is_listed(items, pairs);
    lemma_store_size_of_listing(pairs, records);
    assert forall|i: int| 0 <= i < items.len() implies #[trigger] project::<E>(items[i])
        == candidate_in::<E>(records, pairs[i].0) by {
        assert(items[i] is Ok);
        assert(item_of(items[i], pairs[i]));
        assert(records.contains_key(pairs[i].0));
    }
    pairs
}

/// The sizes of scanned items are the sizes of the pairs that they were made from.
proof fn lemma_scanned_is_listed(items: Seq<ScanItem>, pairs: Seq<(Seq<u8>, Seq<u8>)>)
    requires
        all_ok(items),
        pairs.len() == items.len(),
        forall|i: int| 0 <= i < items.len() ==> item_of(#[trigger] items[i], pairs[i]),
    ensures
        scanned_size(items) == listed_size(pairs),
    decreases items.len(),
{
    if items.len() > 0 {
        let last = items.len() - 1;
        assert(items[last] is Ok);
        assert(item_of(items[last], pairs[last]));
        assert forall|i: int| 0 <= i < items.drop_last().len() implies item_of(
            #[trigger] items.drop_last()[i],
            pairs.drop_last()[i],
        ) by {
            assert(item_of(items[i], pairs[i]));
        }
        assert forall|i: int| 0 <= i < items.drop_last().len() implies (
        #[trigger] items.drop_last()[i]) is Ok by {
            assert(items[i] is Ok);
        }
        lemma_scanned_is_listed(items.drop_last(), pairs.drop_last());
    }
}

/// A batch whose size covers the store holds the entries of the store, each once.
pub proof fn lemma_covering_batch_covers<E: EvictCandidate>(
    items: Seq<ScanItem>,
    records: Map<Seq<u8>, Seq<u8>>,
    batch: nat,
    total: u64,
    queue: Seq<CandidateView>,
)
    requires
        scan_of(items, records),
        selected::<E>(items, batch, total, queue),
        items.len() <= batch,
    ensures
        covers::<E>(queue, records),
{
    broadcast use vstd::seq_lib::group_to_multiset_ensures;

    let pairs = lemma_scan_measures_store::<E>(items, records);
    let scanned = projected::<E>(items);
    lemma_covering_batch_takes_all(scanned, batch);
    assert(queue.to_multiset() == scanned.to_multiset());
    assert forall|i: int| 0 <= i < scanned.len() implies #[trigger] scanned[i] == candidate_in::<
        E,
    >(records, pairs[i].0) by {
        assert(scanned[i] == project::<E>(items[i]));
    }
    // no candidate was scanned twice
    assert(scanned.no_duplicates()) by {
        assert forall|i: int, j: int| 0 <= i < scanned.len() && 0 <= j < scanned.len() && i
            != j implies scanned[i] != scanned[j] by {
            if i < j {
                assert(pairs[i].0 != pairs[j].0);
            } else {
                assert(pairs[j].0 != pairs[i].0);
            }
        }
    }
    scanned.lemma_multiset_has_no_duplicates();
    assert forall|i: int| 0 <= i < queue.len() implies records.contains_key(
        (#[trigger] queue[i]).key,
    ) && queue[i] == candidate_in::<E>(records, queue[i].key) by {
        assert(queue.contains(queue[i]));
        assert(scanned.to_multiset().count(queue[i]) > 0);
        assert(scanned.contains(queue[i]));
        let from = choose|from: int| 0 <= from < scanned.len() && scanned[from] == queue[i];
        assert(records.contains_key(pairs[from].0));
    }
    assert forall|i: int, j: int| 0 <= i < j < queue.len() implies (#[trigger] queue[i]).key != (
    #[trigger] queue[j]).key by {
        if queue[i].key == queue[j].key {
            assert(queue[i] == queue[j]);
            lemma_twice_in_seq_counts_twice(queue, i, j);
            assert(scanned.to_multiset().count(queue[i]) >= 2);
            assert(scanned.to_multiset().contains(queue[i]));
        }
    }
    assert forall|k: Seq<u8>| #[trigger] records.contains_key(k) implies exists|i: int|
        0 <= i < queue.len() && (#[trigger] queue[i]).key == k by {
        let from = choose|i: int| 0 <= i < pairs.len() && (#[trigger] pairs[i]).0 == k;
        assert(scanned.contains(scanned[from]));
        assert(queue.to_multiset().count(scanned[from]) > 0);
        assert(queue.contains(scanned[from]));
        let to = choose|to: int| 0 <= to < queue.len() && queue[to] == scanned[from];
        assert(queue[to].key == k);
    }
}

/// A candidate that stands at two places counts twice.
proof fn lemma_twice_in_seq_counts_twice(s: Seq<CandidateView>, i: int, j: int)
    requires
        0 <= i < j < s.len(),
        s[i] == s[j],
    ensures
        s.to_multiset().count(s[i]) >= 2,
{
    broadcast use vstd::seq_lib::group_to_multiset_ensures;

    let without = s.remove(j);
    assert(without[i] == s[i]);
    assert(without.contains(s[i]));
    assert(without.to_multiset().count(s[i]) > 0);
    vstd::seq_lib::to_multiset_remove(s, j);
    assert(without.to_multiset() == s.to_multiset().remove(s[j]));
}

/// What the laws of an eviction take for granted of a store: every record can be
/// decoded, the records are finitely many, and their sizes together fit a `u64`.
pub open spec fn standing(records: Map<Seq<u8>, Seq<u8>>) -> bool {
    &&& readable(records)
    &&& listable(records)
    &&& store_size(records) <= u64::MAX
}

/// What holds after a step that named an entry, once that entry is removed: the rest
/// of the store is sound, and the eviction is in step with it.
pub open spec fn ready_for_removal<E: EvictCandidate>(
    post: EvictionView,
    records: Map<Seq<u8>, Seq<u8>>,
    key: Seq<u8>,
) -> bool {
    &&& standing(records.remove(key))
    &&& in_step::<E>(
        post.pending,
        less(post.total, decoded_record(records[key])->0.size),
        records.remove(key),
    )
    &&& post.pending.len() == 0 ==> post.batch_size == 1 || covered(
        records.remove(key),
        post.batch_size as nat,
    )
}

/// What a step does on a store with which the eviction is in step. A step that names
/// an entry names one that should go first, and only while the store is above the
/// target; a step that ends the eviction finds the store at or below the target, or
/// empty.
pub open spec fn goes_oldest_first<E: EvictCandidate>(
    min_size: u64,
    records: Map<Seq<u8>, Seq<u8>>,
    post: EvictionView,
    step: EvictStep,
) -> bool {
    match step {
        EvictStep::Finished => store_size(records) <= min_size || forall|k: Seq<u8>|
            !records.contains_key(k),
        EvictStep::Remove(key) => goes_first::<E>(records, key@) && store_size(records) > min_size
            && ready_for_removal::<E>(post, records, key@),
    }
}

/// What is left of a sound store after a removal is sound, and smaller by the size of the
/// removed entry.
proof fn lemma_removal_keeps_standing(records: Map<Seq<u8>, Seq<u8>>, key: Seq<u8>)
    requires
        standing(records),
        records.contains_key(key),
    ensures
        standing(records.remove(key)),
        store_size(records.remove(key)) + decoded_record(records[key])->0.size == store_size(
            records,
        ),
{
    lemma_store_size_after_removal(records, key);
    let fewer = records.remove(key);
    assert forall|k: Seq<u8>| #[trigger] fewer.contains_key(k) implies decoded_record(
        fewer[k],
    ) is Some by {
        assert(records.contains_key(k));
    }
}

/// The decision on pending candidates that are the whole store, in order, goes oldest
/// first.
proof fn lemma_decided_in_step<E: EvictCandidate>(
    min_size: u64,
    total: u64,
    pending: Seq<CandidateView>,
    records: Map<Seq<u8>, Seq<u8>>,
    post: EvictionView,
    step: EvictStep,
)
    requires
        standing(records),
        pending.len() > 0,
        covers::<E>(pending, records),
        sorted_by_stamp(pending),
        total == store_size(records),
        decided(min_size, total, pending, post, step),
    ensures
        goes_oldest_first::<E>(min_size, records, post, step),
{
    match step {
        EvictStep::Finished => {},
        EvictStep::Remove(key) => {
            let first = pending[0].key;
            assert(key@ == first);
            assert(records.contains_key(first));
            assert forall|k: Seq<u8>| #[trigger] records.contains_key(k) implies stamp_in::<E>(
                records,
                first,
            ) <= stamp_in::<E>(records, k) by {
                let i = choose|i: int| 0 <= i < pending.len() && (#[trigger] pending[i]).key == k;
                assert(pending[i] == candidate_in::<E>(records, k));
                assert(pending[0] == candidate_in::<E>(records, first));
                if i > 0 {
                    assert(pending[0].stamp <= pending[i].stamp);
                }
            }
            lemma_removal_keeps_standing(records, first);
            let fewer = records.remove(first);
            let rest = pending.drop_first();
            assert(post.pending == rest);
            if rest.len() > 0 {
                assert forall|i: int| 0 <= i < rest.len() implies fewer.contains_key(
                    (#[trigger] rest[i]).key,
                ) && rest[i] == candidate_in::<E>(fewer, rest[i].key) by {
                    assert(rest[i] == pending[i + 1]);
                    assert(pending[0].key != pending[i + 1].key);
                    assert(pending[i + 1] == candidate_in::<E>(records, pending[i + 1].key));
                }
                assert forall|i: int, j: int| 0 <= i < j < rest.len() implies (
                #[trigger] rest[i]).key != (#[trigger] rest[j]).key by {
                    assert(rest[i] == pending[i + 1]);
                    assert(rest[j] == pending[j + 1]);
                }
                assert forall|k: Seq<u8>| #[trigger] fewer.contains_key(k) implies exists|i: int|
                    0 <= i < rest.len() && (#[trigger] rest[i]).key == k by {
                    assert(records.contains_key(k));
                    let i = choose|i: int|
                        0 <= i < pending.len() && (#[trigger] pending[i]).key == k;
                    assert(rest[i - 1] == pending[i]);
                }
                assert forall|i: int, j: int| 0 <= i < j < rest.len() implies (
                #[trigger] rest[i]).stamp <= (#[trigger] rest[j]).stamp by {
                    assert(rest[i] == pending[i + 1]);
                    assert(rest[j] == pending[j + 1]);
                }
            } else {
                assert forall|pairs: Seq<(Seq<u8>, Seq<u8>)>| #[trigger]
                    lists_records(pairs, fewer) implies pairs.len() <= post.batch_size as nat by {
                    if pairs.len() > 0 {
                        assert(fewer.contains_key(pairs[0].0));
                        assert(records.contains_key(pairs[0].0));
                        let i = choose|i: int|
                            0 <= i < pending.len() && (#[trigger] pending[i]).key == pairs[0].0;
                    }
                }
            }
        },
    }
}

/// The step law. Let an eviction be in step with a sound store, and let its batch
/// size be 1 or cover the store whenever it comes to scan. Then every step goes
/// oldest first: an entry that it names is one that should go first, and is named
/// only while the store is above the target; the eviction ends only when the store is
/// at or below the target, or empty; and once a named entry is removed the eviction is
/// in step with what is left.
pub proof fn lemma_step_goes_oldest_first<E: EvictCandidate>(
    pre: EvictionView,
    records: Map<Seq<u8>, Seq<u8>>,
    event: EvictEvent,
    post: EvictionView,
    step: EvictStep,
)
    requires
        standing(records),
        in_step::<E>(pre.pending, after_event(pre.total, event), records),
        pre.pending.len() == 0 ==> pre.batch_size == 1 || covered(records, pre.batch_size as nat),
        evict_stepped::<E>(pre, records, event, post, Ok(step)),
    ensures
        post.min_size == pre.min_size,
        post.batch_size == pre.batch_size,
        goes_oldest_first::<E>(pre.min_size, records, post, step),
{
    if pre.pending.len() > 0 {
        lemma_decided_in_step::<E>(
            pre.min_size,
            after_event(pre.total, event),
            pre.pending,
            records,
            post,
            step,
        );
    } else {
        let batch = pre.batch_size as nat;
        let (total, queue) = choose|total: u64, queue: Seq<CandidateView>|
            #![auto]
            batch_found::<E>(records, batch, Ok((total, queue))) && decided(
                pre.min_size,
                total,
                queue,
                post,
                step,
            );
        let items = choose|items: Seq<ScanItem>|
            #![auto]
            scan_of(items, records) && selected::<E>(items, batch, total, queue);
        let pairs = lemma_scan_measures_store::<E>(items, records);
        let scanned = projected::<E>(items);
        lemma_working_set_len(scanned, batch);
        queue.to_multiset_ensures();
        working_set(scanned, batch).to_multiset_ensures();
        assert(total == store_size(records));
        if items.len() == 0 {
            assert forall|k: Seq<u8>| !records.contains_key(k) by {
                if records.contains_key(k) {
                    let i = choose|i: int| 0 <= i < pairs.len() && (#[trigger] pairs[i]).0 == k;
                }
            }
        } else if covered(records, batch) {
            lemma_covering_batch_covers::<E>(items, records, batch, total, queue);
            lemma_decided_in_step::<E>(pre.min_size, total, queue, records, post, step);
        } else {
            assert(batch == 1);
            assert(queue.len() == 1);
            lemma_batch_begins_with_earliest::<E>(items, batch, total, queue);
            match step {
                EvictStep::Finished => {},
                EvictStep::Remove(key) => {
                    let from = choose|i: int|
                        0 <= i < items.len() && #[trigger] project::<E>(items[i]) == queue[0];
                    assert(queue[0] == candidate_in::<E>(records, pairs[from].0));
                    assert(records.contains_key(pairs[from].0));
                    assert forall|k: Seq<u8>| #[trigger]
                        records.contains_key(k) implies stamp_in::<E>(records, key@) <= stamp_in::<
                        E,
                    >(records, k) by {
                        let i = choose|i: int| 0 <= i < pairs.len() && (#[trigger] pairs[i]).0 == k;
                        assert(project::<E>(items[i]) == candidate_in::<E>(records, k));
                    }
                    lemma_removal_keeps_standing(records, key@);
                    assert(post.pending =~= Seq::empty());
                },
            }
        }
    }
}

/// The caller did what a step asked for: it removed the named entry from the store
/// and comes back with the record that the entry had.
pub open spec fn removal_between(
    before: Map<Seq<u8>, Seq<u8>>,
    step: EvictStep,
    event: EvictEvent,
    after: Map<Seq<u8>, Seq<u8>>,
) -> bool {
    &&& step matches EvictStep::Remove(key)
    &&& event matches EvictEvent::Removed(meta)
    &&& before.contains_key(key@)
    &&& decoded_record(before[key@]) == Some(meta@)
    &&& after == before.remove(key@)
}

/// A whole eviction with a caller that removes what it is told to remove, and nothing
/// else changes the store meanwhile. `stores[i]` is the store before step `i`,
/// `views[i]` the eviction before it and `views[i + 1]` after it. The eviction begins
/// with nothing pending and ends with its last step.
pub open spec fn faithful_run<E: EvictCandidate>(
    views: Seq<EvictionView>,
    stores: Seq<Map<Seq<u8>, Seq<u8>>>,
    events: Seq<EvictEvent>,
    steps: Seq<EvictStep>,
) -> bool {
    &&& steps.len() >= 1
    &&& views.len() == steps.len() + 1
    &&& stores.len() == steps.len()
    &&& events.len() == steps.len()
    &&& views[0].pending.len() == 0
    &&& events[0] is Start
    &&& forall|i: int|
        0 <= i < steps.len() ==> evict_stepped::<E>(
            views[i],
            stores[i],
            events[i],
            views[i + 1],
            Ok(#[trigger] steps[i]),
        )
    &&& forall|i: int|
        0 <= i < steps.len() - 1 ==> removal_between(
            stores[i],
            #[trigger] steps[i],
            events[i + 1],
            stores[i + 1],
        )
    &&& steps.last() is Finished
}

/// One removal of an entry that should go first, made while the store is above the
/// target.
pub open spec fn oldest_removed<E: EvictCandidate>(
    before: Map<Seq<u8>, Seq<u8>>,
    key: Seq<u8>,
    after: Map<Seq<u8>, Seq<u8>>,
    min_size: u64,
) -> bool {
    &&& goes_first::<E>(before, key)
    &&& store_size(before) > min_size
    &&& after == before.remove(key)
}

/// The store at `at + 1` comes from the store at `at` by one such removal.
pub open spec fn oldest_removed_at<E: EvictCandidate>(
    stores: Seq<Map<Seq<u8>, Seq<u8>>>,
    at: int,
    min_size: u64,
) -> bool {
    exists|key: Seq<u8>| #[trigger] oldest_removed::<E>(stores[at], key, stores[at + 1], min_size)
}

/// The stores that a removal of the oldest entries goes through: each comes from the
/// one before by the removal of an entry that should go first, which happens only
/// while the store is above the target; the last is at or below the target, or empty.
pub open spec fn oldest_first_run<E: EvictCandidate>(
    stores: Seq<Map<Seq<u8>, Seq<u8>>>,
    min_size: u64,
) -> bool {
    &&& stores.len() >= 1
    &&& forall|i: int|
        0 <= i < stores.len() - 1 ==> #[trigger] oldest_removed_at::<E>(stores, i, min_size)
    &&& (store_size(stores.last()) <= min_size || forall|k: Seq<u8>|
        !stores.last().contains_key(k))
}

/// No two entries of the store have the same time under the policy.
pub open spec fn distinct_stamps<E: EvictCandidate>(records: Map<Seq<u8>, Seq<u8>>) -> bool {
    forall|a: Seq<u8>, b: Seq<u8>|
        records.contains_key(a) && records.contains_key(b) && a != b ==> #[trigger] stamp_in::<E>(
            records,
            a,
        ) != #[trigger] stamp_in::<E>(records, b)
}

/// A step that scanned the store and did not fail has found every record readable.
pub proof fn lemma_scanned_store_is_readable<E: EvictCandidate>(
    pre: EvictionView,
    records: Map<Seq<u8>, Seq<u8>>,
    event: EvictEvent,
    post: EvictionView,
    step: EvictStep,
)
    requires
        pre.pending.len() == 0,
        evict_stepped::<E>(pre, records, event, post, Ok(step)),
    ensures
        readable(records),
        listable(records),
{
    let (total, queue) = choose|total: u64, queue: Seq<CandidateView>|
        #![auto]
        batch_found::<E>(records, pre.batch_size as nat, Ok((total, queue))) && decided(
            pre.min_size,
            total,
            queue,
            post,
            step,
        );
    let items = choose|items: Seq<ScanItem>|
        #![auto]
        scan_of(items, records) && selected::<E>(items, pre.batch_size as nat, total, queue);
    let pairs = lemma_scan_measures_store::<E>(items, records);
}

/// Every step of a faithful run finds the eviction in step with the store, and goes
/// oldest first.
proof fn lemma_run_stays_in_step<E: EvictCandidate>(
    views: Seq<EvictionView>,
    stores: Seq<Map<Seq<u8>, Seq<u8>>>,
    events: Seq<EvictEvent>,
    steps: Seq<EvictStep>,
    at: int,
)
    requires
        faithful_run::<E>(views, stores, events, steps),
        standing(stores[0]),
        views[0].batch_size == 1 || covered(stores[0], views[0].batch_size as nat),
        0 <= at < steps.len(),
    ensures
        standing(stores[at]),
        in_step::<E>(views[at].pending, after_event(views[at].total, events[at]), stores[at]),
        views[at].pending.len() == 0 ==> views[at].batch_size == 1 || covered(
            stores[at],
            views[at].batch_size as nat,
        ),
        views[at].min_size == views[0].min_size,
        goes_oldest_first::<E>(views[0].min_size, stores[at], views[at + 1], steps[at]),
    decreases at,
{
    if at > 0 {
        lemma_run_stays_in_step::<E>(views, stores, events, steps, at - 1);
        assert(removal_between(stores[at - 1], steps[at - 1], events[at], stores[at]));
        assert(evict_stepped::<E>(
            views[at - 1],
            stores[at - 1],
            events[at - 1],
            views[at],
            Ok(steps[at - 1]),
        ));
    }
    assert(evict_stepped::<E>(views[at], stores[at], events[at], views[at + 1], Ok(steps[at])));
    lemma_step_goes_oldest_first::<E>(views[at], stores[at], events[at], views[at + 1], steps[at]);
}

/// Convergence. Let an eviction run to its end, with a caller that removes what it is
/// told to remove, on a store whose sizes together fit a `u64`, and let the batch size
/// be 1 or cover the store. Then the entries are removed oldest first: each removal
/// takes an entry that should go first under the policy, none is made once the store
/// is at or below the target, and at the end the store is at or below the target, or
/// empty.
pub proof fn lemma_eviction_goes_oldest_first<E: EvictCandidate>(
    views: Seq<EvictionView>,
    stores: Seq<Map<Seq<u8>, Seq<u8>>>,
    events: Seq<EvictEvent>,
    steps: Seq<EvictStep>,
)
    requires
        faithful_run::<E>(views, stores, events, steps),
        store_size(stores[0]) <= u64::MAX,
        views[0].batch_size == 1 || covered(stores[0], views[0].batch_size as nat),
    ensures
        oldest_first_run::<E>(stores, views[0].min_size),
{
    let min_size = views[0].min_size;
    assert(evict_stepped::<E>(views[0], stores[0], events[0], views[1], Ok(steps[0])));
    lemma_scanned_store_is_readable::<E>(views[0], stores[0], events[0], views[1], steps[0]);
    assert forall|i: int| 0 <= i < stores.len() - 1 implies #[trigger] oldest_removed_at::<E>(
        stores,
        i,
        min_size,
    ) by {
        lemma_run_stays_in_step::<E>(views, stores, events, steps, i);
        assert(removal_between(stores[i], steps[i], events[i + 1], stores[i + 1]));
        let key = steps[i]->Remove_0@;
        assert(oldest_removed::<E>(stores[i], key, stores[i + 1], min_size));
    }
    lemma_run_stays_in_step::<E>(views, stores, events, steps, steps.len() - 1);
}

/// Where no two entries have the same time, the removal of the oldest entries down to
/// a target can go one way only.
pub proof fn lemma_oldest_first_is_determined<E: EvictCandidate>(
    a: Seq<Map<Seq<u8>, Seq<u8>>>,
    b: Seq<Map<Seq<u8>, Seq<u8>>>,
    min_size: u64,
)
    requires
        oldest_first_run::<E>(a, min_size),
        oldest_first_run::<E>(b, min_size),
        a[0] == b[0],
        distinct_stamps::<E>(a[0]),
    ensures
        a == b,
    decreases a.len(),
{
    if a.len() == 1 || b.len() == 1 {
        if a.len() > 1 {
            assert(oldest_removed_at::<E>(a, 0, min_size));
            let key = choose|key: Seq<u8>| #[trigger] oldest_removed::<E>(a[0], key, a[1], min_size);
            assert(b.last() == b[0]);
            assert(false);
        }
        if b.len() > 1 {
            assert(oldest_removed_at::<E>(b, 0, min_size));
            let key = choose|key: Seq<u8>| #[trigger] oldest_removed::<E>(b[0], key, b[1], min_size);
            assert(a.last() == a[0]);
            assert(false);
        }
        assert(a =~= b);
    } else {
        assert(oldest_removed_at::<E>(a, 0, min_size));
        assert(oldest_removed_at::<E>(b, 0, min_size));
        let first = choose|key: Seq<u8>| #[trigger] oldest_removed::<E>(a[0], key, a[1], min_size);
        let other = choose|key: Seq<u8>| #[trigger] oldest_removed::<E>(b[0], key, b[1], min_size);
        assert(stamp_in::<E>(a[0], first) <= stamp_in::<E>(a[0], other));
        assert(stamp_in::<E>(a[0], other) <= stamp_in::<E>(a[0], first));
        assert(first == other);
        let rest_a = a.skip(1);
        let rest_b = b.skip(1);
        assert forall|i: int| 0 <= i < rest_a.len() - 1 implies #[trigger] oldest_removed_at::<E>(
            rest_a,
            i,
            min_size,
        ) by {
            assert(oldest_removed_at::<E>(a, i + 1, min_size));
            let key = choose|key: Seq<u8>| #[trigger]
                oldest_removed::<E>(a[i + 1], key, a[i + 1 + 1], min_size);
            assert(rest_a[i] == a[i + 1]);
            assert(rest_a[i + 1] == a[i + 2]);
            assert(oldest_removed::<E>(rest_a[i], key, rest_a[i + 1], min_size));
        }
        assert forall|i: int| 0 <= i < rest_b.len() - 1 implies #[trigger] oldest_removed_at::<E>(
            rest_b,
            i,
            min_size,
        ) by {
            assert(oldest_removed_at::<E>(b, i + 1, min_size));
            let key = choose|key: Seq<u8>| #[trigger]
                oldest_removed::<E>(b[i + 1], key, b[i + 1 + 1], min_size);
            assert(rest_b[i] == b[i + 1]);
            assert(rest_b[i + 1] == b[i + 2]);
            assert(oldest_removed::<E>(rest_b[i], key, rest_b[i + 1], min_size));
        }
        assert(rest_a.last() == a.last());
        assert(rest_b.last() == b.last());
        assert(distinct_stamps::<E>(rest_a[0])) by {
            assert forall|x: Seq<u8>, y: Seq<u8>|
                rest_a[0].contains_key(x) && rest_a[0].contains_key(y) && x
                    != y implies #[trigger] stamp_in::<E>(rest_a[0], x) != #[trigger] stamp_in::<E>(
                rest_a[0],
                y,
            ) by {
                assert(a[0].contains_key(x) && a[0].contains_key(y));
                assert(stamp_in::<E>(a[0], x) != stamp_in::<E>(a[0], y));
            }
        }
        lemma_oldest_first_is_determined::<E>(rest_a, rest_b, min_size);
        assert(a =~= b) by {
            assert(a.len() == b.len());
            assert forall|i: int| 0 <= i < a.len() implies a[i] == b[i] by {
                if i > 0 {
                    assert(a[i] == rest_a[i - 1]);
                    assert(b[i] == rest_b[i - 1]);
                }
            }
        }
    }
}

/// Batching. Two evictions with the same target that run to their end on the same
/// store, whose entries all differ in time and whose sizes together fit a `u64`, each
/// with a batch size that is 1 or covers the store, take the store through the same
/// states: they remove the same entries in the same order and leave the same entries
/// behind.
pub proof fn lemma_batch_size_does_not_matter<E: EvictCandidate>(
    views: Seq<EvictionView>,
    stores: Seq<Map<Seq<u8>, Seq<u8>>>,
    events: Seq<EvictEvent>,
    steps: Seq<EvictStep>,
    other_views: Seq<EvictionView>,
    other_stores: Seq<Map<Seq<u8>, Seq<u8>>>,
    other_events: Seq<EvictEvent>,
    other_steps: Seq<EvictStep>,
)
    requires
        faithful_run::<E>(views, stores, events, steps),
        faithful_run::<E>(other_views, other_stores, other_events, other_steps),
        stores[0] == other_stores[0],
        views[0].min_size == other_views[0].min_size,
        store_size(stores[0]) <= u64::MAX,
        distinct_stamps::<E>(stores[0]),
        views[0].batch_size == 1 || covered(stores[0], views[0].batch_size as nat),
        other_views[0].batch_size == 1 || covered(stores[0], other_views[0].batch_size as nat),
    ensures
        stores == other_stores,
        stores.last() == other_stores.last(),
{
    lemma_eviction_goes_oldest_first::<E>(views, stores, events, steps);
    lemma_eviction_goes_oldest_first::<E>(other_views, other_stores, other_events, other_steps);
    lemma_oldest_first_is_determined::<E>(stores, other_stores, views[0].min_size);
}

/// First in, first out is unaffected by reads: a read that returned bytes leaves the
/// store with the same keys, and every entry with the time of writing that it had.
pub proof fn lemma_reads_keep_write_times(pre: CacheView, key: Seq<u8>, post: CacheView)
    requires
        read_served(pre, key, post),
    ensures
        forall|k: Seq<u8>| pre.records.contains_key(k) <==> post.records.contains_key(k),
        forall|k: Seq<u8>|
            pre.records.contains_key(k) ==> #[trigger] stamp_in::<FifoEc>(post.records, k)
                == stamp_in::<FifoEc>(pre.records, k),
        alike::<FifoEc>(pre.records, post.records),
{
    lemma_read_counts_once(pre, key, post);
    assert forall|k: Seq<u8>| pre.records.contains_key(k) implies post.records.contains_key(k)
        && #[trigger] stamp_in::<FifoEc>(post.records, k) == stamp_in::<FifoEc>(
        pre.records,
        k,
    ) && stored_size(pre.records[k]) == stored_size(post.records[k]) by {
        if pre.track_access && k != key {
            assert(post.records[k] == pre.records[k]);
        }
    }
}

/// An entry that was written and never counted as read has the same time under both
/// policies: without access tracking, least recently used is first in, first out.
pub proof fn lemma_unread_entry_orders_alike(data: Seq<u8>, now: u64)
    ensures
        LruEc::stamp_of(fresh_record(data, now)) == FifoEc::stamp_of(fresh_record(data, now)),
{
}

/// An eviction keeps count of a store where, as long as candidates are pending, the
/// size that it has in mind is the size of the store.
pub open spec fn keeps_count(
    pending: Seq<CandidateView>,
    total: u64,
    records: Map<Seq<u8>, Seq<u8>>,
) -> bool {
    pending.len() > 0 ==> total == store_size(records)
}

/// What a step does on a store of which the eviction keeps count, whatever the batch
/// size: it names an entry only while the store is above the target, and it ends the
/// eviction only when the store is at or below the target, or empty.
pub open spec fn stops_at_target(
    min_size: u64,
    records: Map<Seq<u8>, Seq<u8>>,
    post: EvictionView,
    step: EvictStep,
) -> bool {
    match step {
        EvictStep::Finished => store_size(records) <= min_size || forall|k: Seq<u8>|
            !records.contains_key(k),
        EvictStep::Remove(_) => store_size(records) > min_size && post.total == store_size(
            records,
        ),
    }
}

/// The step law for every batch size that is not 0: on a sound store of which the
/// eviction keeps count, a step stops at the target.
pub proof fn lemma_step_stops_at_target<E: EvictCandidate>(
    pre: EvictionView,
    records: Map<Seq<u8>, Seq<u8>>,
    event: EvictEvent,
    post: EvictionView,
    step: EvictStep,
)
    requires
        pre.pending.len() > 0 ==> standing(records),
        store_size(records) <= u64::MAX,
        keeps_count(pre.pending, after_event(pre.total, event), records),
        pre.batch_size >= 1,
        evict_stepped::<E>(pre, records, event, post, Ok(step)),
    ensures
        post.min_size == pre.min_size,
        post.batch_size == pre.batch_size,
        standing(records),
        stops_at_target(pre.min_size, records, post, step),
{
    if pre.pending.len() == 0 {
        let batch = pre.batch_size as nat;
        let (total, queue) = choose|total: u64, queue: Seq<CandidateView>|
            #![auto]
            batch_found::<E>(records, batch, Ok((total, queue))) && decided(
                pre.min_size,
                total,
                queue,
                post,
                step,
            );
        let items = choose|items: Seq<ScanItem>|
            #![auto]
            scan_of(items, records) && selected::<E>(items, batch, total, queue);
        let pairs = lemma_scan_measures_store::<E>(items, records);
        assert(total == store_size(records));
        if queue.len() == 0 {
            lemma_empty_batch_means_empty_store::<E>(items, batch, total, queue);
            assert forall|k: Seq<u8>| !records.contains_key(k) by {
                if records.contains_key(k) {
                    let i = choose|i: int| 0 <= i < pairs.len() && (#[trigger] pairs[i]).0 == k;
                }
            }
        }
    }
}

/// Every step of a faithful run finds the eviction keeping count of the store.
proof fn lemma_run_keeps_count<E: EvictCandidate>(
    views: Seq<EvictionView>,
    stores: Seq<Map<Seq<u8>, Seq<u8>>>,
    events: Seq<EvictEvent>,
    steps: Seq<EvictStep>,
    at: int,
)
    requires
        faithful_run::<E>(views, stores, events, steps),
        store_size(stores[0]) <= u64::MAX,
        views[0].batch_size >= 1,
        0 <= at < steps.len(),
    ensures
        standing(stores[at]),
        keeps_count(views[at].pending, after_event(views[at].total, events[at]), stores[at]),
        views[at].min_size == views[0].min_size,
        views[at].batch_size == views[0].batch_size,
        stops_at_target(views[0].min_size, stores[at], views[at + 1], steps[at]),
    decreases at,
{
    if at > 0 {
        lemma_run_keeps_count::<E>(views, stores, events, steps, at - 1);
        assert(removal_between(stores[at - 1], steps[at - 1], events[at], stores[at]));
        assert(evict_stepped::<E>(
            views[at - 1],
            stores[at - 1],
            events[at - 1],
            views[at],
            Ok(steps[at - 1]),
        ));
        let key = steps[at - 1]->Remove_0@;
        lemma_removal_keeps_standing(stores[at - 1], key);
    }
    assert(evict_stepped::<E>(views[at], stores[at], events[at], views[at + 1], Ok(steps[at])));
    lemma_step_stops_at_target::<E>(views[at], stores[at], events[at], views[at + 1], steps[at]);
}

/// Convergence for every batch size. Let an eviction with a batch size that is not 0
/// run to its end, with a caller that removes what it is told to remove, on a store
/// whose sizes together fit a `u64`. Then every removal is made while the store is
/// above the target, and at the end the store is at or below the target, or empty.
pub proof fn lemma_eviction_reaches_target<E: EvictCandidate>(
    views: Seq<EvictionView>,
    stores: Seq<Map<Seq<u8>, Seq<u8>>>,
    events: Seq<EvictEvent>,
    steps: Seq<EvictStep>,
)
    requires
        faithful_run::<E>(views, stores, events, steps),
        store_size(stores[0]) <= u64::MAX,
        views[0].batch_size >= 1,
    ensures
        store_size(stores.last()) <= views[0].min_size || forall|k: Seq<u8>|
            !stores.last().contains_key(k),
        forall|i: int|
            0 <= i < stores.len() - 1 ==> store_size(#[trigger] stores[i]) > views[0].min_size,
        forall|i: int|
            0 <= i < stores.len() - 1 ==> store_size(stores[i + 1]) <= store_size(
                #[trigger] stores[i],
            ),
{
    lemma_run_keeps_count::<E>(views, stores, events, steps, steps.len() - 1);
    assert forall|i: int| 0 <= i < stores.len() - 1 implies store_size(#[trigger] stores[i])
        > views[0].min_size && store_size(stores[i + 1]) <= store_size(stores[i]) by {
        lemma_run_keeps_count::<E>(views, stores, events, steps, i);
        assert(removal_between(stores[i], steps[i], events[i + 1], stores[i + 1]));
        lemma_removal_keeps_standing(stores[i], steps[i]->Remove_0@);
    }
}

/// Two stores are alike for a policy where they hold the same keys and every entry has
/// the same size and, under the policy, the same time in both. What else the records
/// say (for first in, first out: the time of last access and the hits) may differ.
pub open spec fn alike<E: EvictCandidate>(
    a: Map<Seq<u8>, Seq<u8>>,
    b: Map<Seq<u8>, Seq<u8>>,
) -> bool {
    &&& forall|k: Seq<u8>| a.contains_key(k) <==> b.contains_key(k)
    &&& forall|k: Seq<u8>| #[trigger]
        a.contains_key(k) ==> stamp_in::<E>(a, k) == stamp_in::<E>(b, k) && stored_size(a[k])
            == stored_size(b[k])
}

/// The pairs of a listing with the values that another store has for the keys.
pub open spec fn relisted(
    pairs: Seq<(Seq<u8>, Seq<u8>)>,
    b: Map<Seq<u8>, Seq<u8>>,
) -> Seq<(Seq<u8>, Seq<u8>)> {
    Seq::new(pairs.len(), |i: int| (pairs[i].0, b[pairs[i].0]))
}

/// A listing of sizes that agree pair by pair gives the same size.
proof fn lemma_relisted_size(
    pairs: Seq<(Seq<u8>, Seq<u8>)>,
    b: Map<Seq<u8>, Seq<u8>>,
)
    requires
        forall|i: int|
            0 <= i < pairs.len() ==> stored_size((#[trigger] pairs[i]).1) == stored_size(
                b[pairs[i].0],
            ),
    ensures
        listed_size(relisted(pairs, b)) == listed_size(pairs),
    decreases pairs.len(),
{
    if pairs.len() > 0 {
        assert(relisted(pairs, b).drop_last() =~= relisted(pairs.drop_last(), b));
        assert forall|i: int| 0 <= i < pairs.drop_last().len() implies stored_size(
            (#[trigger] pairs.drop_last()[i]).1,
        ) == stored_size(b[pairs.drop_last()[i].0]) by {
            assert(pairs.drop_last()[i] == pairs[i]);
        }
        lemma_relisted_size(pairs.drop_last(), b);
        let last = pairs.len() - 1;
        assert(pairs.last() == pairs[last]);
        assert(relisted(pairs, b).last() == (pairs[last].0, b[pairs[last].0]));
    }
}

/// Stores that are alike have the same size, and as many records.
pub proof fn lemma_alike_stores_weigh_alike<E: EvictCandidate>(
    a: Map<Seq<u8>, Seq<u8>>,
    b: Map<Seq<u8>, Seq<u8>>,
)
    requires
        alike::<E>(a, b),
        listable(a),
    ensures
        listable(b),
        store_size(a) == store_size(b),
        forall|batch: nat| covered(a, batch) ==> #[trigger] covered(b, batch),
{
    let pairs = choose|pairs: Seq<(Seq<u8>, Seq<u8>)>| lists_records(pairs, a);
    let other = relisted(pairs, b);
    assert forall|i: int| 0 <= i < pairs.len() implies stored_size((#[trigger] pairs[i]).1)
        == stored_size(b[pairs[i].0]) by {
        assert(a.contains_key(pairs[i].0));
    }
    lemma_relisted_size(pairs, b);
    assert(lists_records(other, b)) by {
        assert forall|i: int| 0 <= i < other.len() implies b.contains_key(
            (#[trigger] other[i]).0,
        ) && b[other[i].0] == other[i].1 by {
            assert(a.contains_key(pairs[i].0));
        }
        assert forall|i: int, j: int| 0 <= i < j < other.len() implies (#[trigger] other[i]).0
            != (#[trigger] other[j]).0 by {
            assert(pairs[i].0 != pairs[j].0);
        }
        assert forall|k: Seq<u8>| #[trigger] b.contains_key(k) implies exists|i: int|
            0 <= i < other.len() && (#[trigger] other[i]).0 == k by {
            assert(a.contains_key(k));
            let i = choose|i: int| 0 <= i < pairs.len() && (#[trigger] pairs[i]).0 == k;
            assert(other[i].0 == k);
        }
    }
    lemma_store_size_of_listing(pairs, a);
    lemma_store_size_of_listing(other, b);
    assert forall|batch: nat| covered(a, batch) implies #[trigger] covered(b, batch) by {
        assert forall|listing: Seq<(Seq<u8>, Seq<u8>)>| #[trigger]
            lists_records(listing, b) implies listing.len() <= batch by {
            lemma_listings_agree(listing, other, b);
            assert(lists_records(pairs, a));
        }
    }
}

/// Being alike is kept when both stores lose the same key, and when one goes on to a
/// store that is alike.
pub proof fn lemma_alike_goes_on<E: EvictCandidate>(
    a: Map<Seq<u8>, Seq<u8>>,
    b: Map<Seq<u8>, Seq<u8>>,
    c: Map<Seq<u8>, Seq<u8>>,
    key: Seq<u8>,
)
    requires
        alike::<E>(a, b),
    ensures
        alike::<E>(a.remove(key), b.remove(key)),
        alike::<E>(b, c) ==> alike::<E>(a, c),
        alike::<E>(a, a),
{
    assert forall|k: Seq<u8>| #[trigger] a.remove(key).contains_key(k) implies stamp_in::<E>(
        a.remove(key),
        k,
    ) == stamp_in::<E>(b.remove(key), k) && stored_size(a.remove(key)[k]) == stored_size(
        b.remove(key)[k],
    ) by {
        assert(a.contains_key(k));
    }
    if alike::<E>(b, c) {
        assert forall|k: Seq<u8>| #[trigger] a.contains_key(k) implies stamp_in::<E>(a, k)
            == stamp_in::<E>(c, k) && stored_size(a[k]) == stored_size(c[k]) by {
            assert(b.contains_key(k));
        }
    }
}

/// Where no two entries have the same time, the removal of the oldest entries down to
/// a target goes the same way on two stores that are alike: as many removals, of the
/// same keys in the same order, and the same keys left.
pub proof fn lemma_oldest_first_runs_alike<E: EvictCandidate>(
    a: Seq<Map<Seq<u8>, Seq<u8>>>,
    b: Seq<Map<Seq<u8>, Seq<u8>>>,
    min_size: u64,
)
    requires
        oldest_first_run::<E>(a, min_size),
        oldest_first_run::<E>(b, min_size),
        alike::<E>(a[0], b[0]),
        listable(a[0]),
        distinct_stamps::<E>(a[0]),
    ensures
        a.len() == b.len(),
        forall|i: int| 0 <= i < a.len() ==> alike::<E>(#[trigger] a[i], b[i]),
    decreases a.len(),
{
    lemma_alike_stores_weigh_alike::<E>(a[0], b[0]);
    if a.len() == 1 || b.len() == 1 {
        if a.len() > 1 {
            assert(oldest_removed_at::<E>(a, 0, min_size));
            let key = choose|key: Seq<u8>| #[trigger] oldest_removed::<E>(a[0], key, a[1], min_size);
            assert(a[0].contains_key(key));
            assert(b.last() == b[0]);
            assert(b[0].contains_key(key));
            assert(false);
        }
        if b.len() > 1 {
            assert(oldest_removed_at::<E>(b, 0, min_size));
            let key = choose|key: Seq<u8>| #[trigger] oldest_removed::<E>(b[0], key, b[1], min_size);
            assert(b[0].contains_key(key));
            assert(a.last() == a[0]);
            assert(a[0].contains_key(key));
            assert(false);
        }
    } else {
        assert(oldest_removed_at::<E>(a, 0, min_size));
        assert(oldest_removed_at::<E>(b, 0, min_size));
        let first = choose|key: Seq<u8>| #[trigger] oldest_removed::<E>(a[0], key, a[1], min_size);
        let other = choose|key: Seq<u8>| #[trigger] oldest_removed::<E>(b[0], key, b[1], min_size);
        assert(a[0].contains_key(first) && b[0].contains_key(other));
        assert(a[0].contains_key(other) && b[0].contains_key(first));
        assert(stamp_in::<E>(a[0], first) <= stamp_in::<E>(a[0], other));
        assert(stamp_in::<E>(b[0], other) <= stamp_in::<E>(b[0], first));
        assert(first == other);
        lemma_alike_goes_on::<E>(a[0], b[0], b[0], first);
        lemma_store_size_after_removal(a[0], first);
        let rest_a = a.skip(1);
        let rest_b = b.skip(1);
        assert forall|i: int| 0 <= i < rest_a.len() - 1 implies #[trigger] oldest_removed_at::<E>(
            rest_a,
            i,
            min_size,
        ) by {
            assert(oldest_removed_at::<E>(a, i + 1, min_size));
            let key = choose|key: Seq<u8>| #[trigger]
                oldest_removed::<E>(a[i + 1], key, a[i + 1 + 1], min_size);
            assert(rest_a[i] == a[i + 1]);
            assert(rest_a[i + 1] == a[i + 2]);
            assert(oldest_removed::<E>(rest_a[i], key, rest_a[i + 1], min_size));
        }
        assert forall|i: int| 0 <= i < rest_b.len() - 1 implies #[trigger] oldest_removed_at::<E>(
            rest_b,
            i,
            min_size,
        ) by {
            assert(oldest_removed_at::<E>(b, i + 1, min_size));
            let key = choose|key: Seq<u8>| #[trigger]
                oldest_removed::<E>(b[i + 1], key, b[i + 1 + 1], min_size);
            assert(rest_b[i] == b[i + 1]);
            assert(rest_b[i + 1] == b[i + 2]);
            assert(oldest_removed::<E>(rest_b[i], key, rest_b[i + 1], min_size));
        }
        assert(rest_a.last() == a.last());
        assert(rest_b.last() == b.last());
        assert(distinct_stamps::<E>(rest_a[0])) by {
            assert forall|x: Seq<u8>, y: Seq<u8>|
                rest_a[0].contains_key(x) && rest_a[0].contains_key(y) && x
                    != y implies #[trigger] stamp_in::<E>(rest_a[0], x) != #[trigger] stamp_in::<E>(
                rest_a[0],
                y,
            ) by {
                assert(a[0].contains_key(x) && a[0].contains_key(y));
                assert(stamp_in::<E>(a[0], x) != stamp_in::<E>(a[0], y));
            }
        }
        lemma_oldest_first_runs_alike::<E>(rest_a, rest_b, min_size);
        assert forall|i: int| 0 <= i < a.len() implies alike::<E>(#[trigger] a[i], b[i]) by {
            if i > 0 {
                assert(a[i] == rest_a[i - 1]);
                assert(b[i] == rest_b[i - 1]);
            }
        }
    }
}

/// A row of reads that returned bytes, of whatever keys, leaves the store alike for
/// first in, first out.
pub proof fn lemma_reads_leave_store_alike(states: Seq<CacheView>, keys: Seq<Seq<u8>>)
    requires
        states.len() >= 1,
        keys.len() == states.len() - 1,
        forall|i: int|
            0 <= i < states.len() - 1 ==> read_served(
                states[i],
                #[trigger] keys[i],
                states[i + 1],
            ),
    ensures
        alike::<FifoEc>(states[0].records, states.last().records),
    decreases states.len(),
{
    let none = Map::<Seq<u8>, Seq<u8>>::empty();
    if states.len() == 1 {
        lemma_alike_goes_on::<FifoEc>(states[0].records, states[0].records, none, Seq::empty());
    } else {
        let earlier = states.drop_last();
        let fewer = keys.drop_last();
        assert forall|i: int| 0 <= i < earlier.len() - 1 implies read_served(
            earlier[i],
            #[trigger] fewer[i],
            earlier[i + 1],
        ) by {
            assert(read_served(states[i], keys[i], states[i + 1]));
        }
        lemma_reads_leave_store_alike(earlier, fewer);
        let n = states.len() - 2;
        assert(earlier.last() == states[n]);
        assert(read_served(states[n], keys[n], states[n + 1]));
        lemma_reads_keep_write_times(states[n], keys[n], states[n + 1]);
        lemma_alike_goes_on::<FifoEc>(
            states[0].records,
            states[n].records,
            states[n + 1].records,
            Seq::empty(),
        );
    }
}

/// First in, first out is unaffected by reads. Take a store whose entries all differ in
/// the time of writing, and the store that a row of reads makes of it. Two evictions
/// with the same target, one on each, each with a batch size that is 1 or covers the
/// store, remove the same keys in the same order and leave the same keys behind.
pub proof fn lemma_fifo_ignores_reads(
    states: Seq<CacheView>,
    keys: Seq<Seq<u8>>,
    views: Seq<EvictionView>,
    stores: Seq<Map<Seq<u8>, Seq<u8>>>,
    events: Seq<EvictEvent>,
    steps: Seq<EvictStep>,
    other_views: Seq<EvictionView>,
    other_stores: Seq<Map<Seq<u8>, Seq<u8>>>,
    other_events: Seq<EvictEvent>,
    other_steps: Seq<EvictStep>,
)
    requires
        states.len() >= 1,
        keys.len() == states.len() - 1,
        forall|i: int|
            0 <= i < states.len() - 1 ==> read_served(
                states[i],
                #[trigger] keys[i],
                states[i + 1],
            ),
        faithful_run::<FifoEc>(views, stores, events, steps),
        faithful_run::<FifoEc>(other_views, other_stores, other_events, other_steps),
        stores[0] == states[0].records,
        other_stores[0] == states.last().records,
        views[0].min_size == other_views[0].min_size,
        store_size(stores[0]) <= u64::MAX,
        distinct_stamps::<FifoEc>(stores[0]),
        views[0].batch_size == 1 || covered(stores[0], views[0].batch_size as nat),
        other_views[0].batch_size == 1 || covered(stores[0], other_views[0].batch_size as nat),
    ensures
        stores.len() == other_stores.len(),
        forall|i: int|
            0 <= i < stores.len() ==> alike::<FifoEc>(#[trigger] stores[i], other_stores[i]),
        forall|k: Seq<u8>| stores.last().contains_key(k) <==> other_stores.last().contains_key(k),
{
    lemma_reads_leave_store_alike(states, keys);
    assert(evict_stepped::<FifoEc>(views[0], stores[0], events[0], views[1], Ok(steps[0])));
    lemma_scanned_store_is_readable::<FifoEc>(views[0], stores[0], events[0], views[1], steps[0]);
    lemma_alike_stores_weigh_alike::<FifoEc>(stores[0], other_stores[0]);
    lemma_eviction_goes_oldest_first::<FifoEc>(views, stores, events, steps);
    lemma_eviction_goes_oldest_first::<FifoEc>(
        other_views,
        other_stores,
        other_events,
        other_steps,
    );
    lemma_oldest_first_runs_alike::<FifoEc>(stores, other_stores, views[0].min_size);
    let last = stores.len() - 1;
    assert(alike::<FifoEc>(stores[last], other_stores[last]));
}

} // verus!
