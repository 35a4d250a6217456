//! What holds of the cache across several operations.

use crate::cache::{
    read_loaded, read_started, remove_started, remove_unlinked, write_started, write_stored,
    CacheView, ReadStep, RemoveStep, WriteStep,
};
use crate::error::ForcepError;
use crate::layout::{blob_path, lemma_paths_differ};
use crate::mem_cache::{
    bytes_content, distinct_keys, holds_key, key_index, lemma_drop_first_distinct,
    lemma_settled_fits, lemma_stored_distinct, lemma_total_len_push, lemma_without_distinct,
    settled, stored, total_len, value_of, with_room,
};
use crate::metadata::md5_digest;
use vstd::prelude::*;

verus! {

/// Settling keeps the longest run of most recently used entries that fits: what is
/// left is the entries without the first `n`, it holds at most `cap` bytes, and
/// nothing that keeps more of them does.
pub proof fn lemma_settled_is_longest_fit(entries: Seq<(Seq<u8>, Seq<u8>)>, cap: nat)
    ensures
        settled(entries, cap).len() <= entries.len(),
        settled(entries, cap) == entries.skip(entries.len() - settled(entries, cap).len()),
        total_len(settled(entries, cap)) <= cap,
        forall|m: int|
            0 <= m < entries.len() - settled(entries, cap).len() ==> total_len(
                #[trigger] entries.skip(m),
            ) > cap,
    decreases entries.len(),
{
    if entries.len() == 0 || total_len(entries) <= cap {
        assert(entries.skip(0) =~= entries);
    } else {
        let rest = entries.drop_first();
        lemma_settled_is_longest_fit(rest, cap);
        let n = rest.len() - settled(rest, cap).len();
        assert(entries.skip(n + 1) =~= rest.skip(n));
        assert forall|m: int| 0 <= m < n + 1 implies total_len(#[trigger] entries.skip(m))
            > cap by {
            if m == 0 {
                assert(entries.skip(0) =~= entries);
            } else {
                assert(entries.skip(m) =~= rest.skip(m - 1));
            }
        }
    }
}

/// Among entries with distinct keys, a key that is still held after settling has the
/// value that it had before.
pub proof fn lemma_settled_keeps_values(entries: Seq<(Seq<u8>, Seq<u8>)>, cap: nat, key: Seq<u8>)
    requires
        distinct_keys(entries),
    ensures
        holds_key(settled(entries, cap), key) ==> value_of(settled(entries, cap), key) == value_of(
            entries,
            key,
        ),
    decreases entries.len(),
{
    if entries.len() == 0 || total_len(entries) <= cap {
    } else {
        let rest = entries.drop_first();
        lemma_drop_first_distinct(entries);
        lemma_settled_keeps_values(rest, cap, key);
        if holds_key(settled(rest, cap), key) {
            assert(holds_key(rest, key));
            let at = key_index(rest, key);
            assert(rest[at] == entries[at + 1]);
            assert(holds_key(entries, key));
            let found = key_index(entries, key);
            if found != at + 1 {
                if found < at + 1 {
                    assert(entries[found].0 != entries[at + 1].0);
                } else {
                    assert(entries[at + 1].0 != entries[found].0);
                }
            }
        }
    }
}

/// A value that fits the layer by itself is still held after it was stored and the
/// layer has settled.
pub proof fn lemma_fitting_value_is_kept(
    entries: Seq<(Seq<u8>, Seq<u8>)>,
    cap: nat,
    key: Seq<u8>,
    value: Seq<u8>,
)
    requires
        entries.len() > 0,
        entries.last() == (key, value),
        value.len() <= cap,
    ensures
        settled(entries, cap).len() > 0,
        settled(entries, cap).last() == (key, value),
    decreases entries.len(),
{
    if total_len(entries) <= cap {
    } else {
        if entries.len() == 1 {
            assert(entries.drop_first() =~= Seq::empty());
            assert(total_len(entries.drop_first()) == 0);
        } else {
            lemma_fitting_value_is_kept(entries.drop_first(), cap, key, value);
        }
    }
}

/// What the memory layer holds for a key once a value was handed to it: that value or
/// nothing, and that value where it fits the layer.
pub proof fn lemma_remembered_value(
    entries: Seq<(Seq<u8>, Seq<u8>)>,
    capacity: nat,
    key: Seq<u8>,
    value: Seq<u8>,
)
    requires
        distinct_keys(entries),
        capacity > 0,
    ensures
        ({
            let after = settled(stored(with_room(entries), md5_digest(key), value), capacity);
            &&& distinct_keys(after)
            &&& total_len(after) <= capacity
            &&& value_of(after, md5_digest(key)) is Some ==> value_of(after, md5_digest(key))
                == Some(value)
            &&& value.len() <= capacity ==> value_of(after, md5_digest(key)) == Some(value)
        }),
{
    let hashed = md5_digest(key);
    let base = with_room(entries);
    if entries.len() >= usize::MAX {
        lemma_drop_first_distinct(entries);
    }
    lemma_stored_distinct(base, hashed, value);
    let put = stored(base, hashed, value);
    lemma_settled_fits(put, capacity);
    lemma_settled_keeps_values(put, capacity, hashed);
    let after = settled(put, capacity);
    if value.len() <= capacity {
        lemma_fitting_value_is_kept(put, capacity, hashed, value);
        let last = after.len() - 1;
        assert(after[last].0 == hashed);
        assert(holds_key(after, hashed));
    }
}

/// The bytes of one, two and three entries.
proof fn lemma_total_len_of_few(a: (Seq<u8>, Seq<u8>), b: (Seq<u8>, Seq<u8>), c: (Seq<u8>, Seq<u8>))
    ensures
        total_len(seq![a]) == a.1.len(),
        total_len(seq![a, b]) == a.1.len() + b.1.len(),
        total_len(seq![a, b, c]) == a.1.len() + b.1.len() + c.1.len(),
{
    let none = Seq::<(Seq<u8>, Seq<u8>)>::empty();
    assert(total_len(none) == 0);
    assert(none.push(a) =~= seq![a]);
    assert(seq![a].push(b) =~= seq![a, b]);
    assert(seq![a, b].push(c) =~= seq![a, b, c]);
    lemma_total_len_push(none, a);
    lemma_total_len_push(seq![a], b);
    lemma_total_len_push(seq![a, b], c);
}

/// Byte accounting. A layer whose capacity is twice the size of an entry holds two
/// entries of that size; a third one, under another key, pushes out the one that was
/// stored first and leaves the other two.
pub proof fn lemma_third_entry_pushes_first_out(
    first: (Seq<u8>, Seq<u8>),
    second: (Seq<u8>, Seq<u8>),
    third: (Seq<u8>, Seq<u8>),
    size: nat,
)
    requires
        size > 0,
        first.1.len() == size,
        second.1.len() == size,
        third.1.len() == size,
        first.0 != second.0,
        first.0 != third.0,
        second.0 != third.0,
    ensures
        ({
            let cap = 2 * size;
            let one = settled(stored(with_room(Seq::empty()), first.0, first.1), cap);
            let two = settled(stored(with_room(one), second.0, second.1), cap);
            let three = settled(stored(with_room(two), third.0, third.1), cap);
            &&& two == seq![first, second]
            &&& three == seq![second, third]
            &&& value_of(two, first.0) == Some(first.1)
            &&& value_of(three, first.0) is None
            &&& total_len(three) == cap
        }),
{
    let cap = 2 * size;
    let none = Seq::<(Seq<u8>, Seq<u8>)>::empty();
    lemma_total_len_of_few(first, second, third);
    lemma_total_len_of_few(second, third, first);
    // the first entry
    assert(!holds_key(none, first.0));
    assert(stored(none, first.0, first.1) =~= seq![first]);
    let one = seq![first];
    assert(settled(one, cap) == one);
    // the second
    assert(!holds_key(one, second.0)) by {
        if holds_key(one, second.0) {
            let i = key_index(one, second.0);
            assert(one[i] == first);
        }
    }
    assert(stored(one, second.0, second.1) =~= seq![first, second]);
    let two = seq![first, second];
    assert(settled(two, cap) == two);
    assert(two[0].0 == first.0);
    assert(holds_key(two, first.0));
    assert(value_of(two, first.0) == Some(first.1)) by {
        let i = key_index(two, first.0);
        if i == 1 {
            assert(two[1] == second);
        }
    }
    // the third
    assert(!holds_key(two, third.0)) by {
        if holds_key(two, third.0) {
            let i = key_index(two, third.0);
            if i == 0 {
                assert(two[0] == first);
            } else {
                assert(two[1] == second);
            }
        }
    }
    assert(stored(two, third.0, third.1) =~= seq![first, second, third]);
    let all = seq![first, second, third];
    assert(all.drop_first() =~= seq![second, third]);
    let three = seq![second, third];
    assert(settled(three, cap) == three);
    assert(settled(all, cap) == three);
    assert(!holds_key(three, first.0)) by {
        if holds_key(three, first.0) {
            let i = key_index(three, first.0);
            if i == 0 {
                assert(three[0] == second);
            } else {
                assert(three[1] == third);
            }
        }
    }
}

/// A value that fits the memory layer is served from it after it was written: the
/// read that begins next does not go to the file.
pub proof fn lemma_fitting_value_is_served_from_memory(
    before: CacheView,
    key: Seq<u8>,
    value: Seq<u8>,
    written: CacheView,
    done: WriteStep,
    read: CacheView,
    step: ReadStep,
)
    requires
        before.wf(),
        write_stored(before, key, value, written, done),
        value.len() <= before.capacity,
        before.capacity > 0,
        read_started(written, key, read, step),
    ensures
        written.cached(key) == Some(value),
        match step {
            ReadStep::Done(bytes) => bytes_content(bytes) == value,
            ReadStep::Failed(_) => written.track_access,
            ReadStep::Load { .. } => false,
        },
{
    lemma_remembered_value(before.entries, before.capacity, key, value);
}

/// Whether a read of `key` that returned bytes took the cache from `pre` to `post`:
/// served from the memory layer, or from the file.
pub open spec fn read_served(pre: CacheView, key: Seq<u8>, post: CacheView) -> bool {
    ||| exists|bytes: bytes::Bytes| #[trigger] read_started(pre, key, post, ReadStep::Done(bytes))
    ||| exists|data: Seq<u8>, bytes: bytes::Bytes| #[trigger]
        read_loaded(pre, key, data, post, ReadStep::Done(bytes))
}

/// One read that returned bytes adds one hit where tracking is on, and leaves the
/// records alone where it is off.
pub proof fn lemma_read_counts_once(pre: CacheView, key: Seq<u8>, post: CacheView)
    requires
        read_served(pre, key, post),
    ensures
        post.track_access == pre.track_access,
        !pre.track_access ==> post.records == pre.records,
        pre.track_access ==> pre.record_of(key) is Some && post.record_of(key) is Some
            && post.record_of(key)->0.hits == (if pre.record_of(key)->0.hits < u64::MAX {
            pre.record_of(key)->0.hits + 1
        } else {
            u64::MAX as int
        }) && post.record_of(key)->0.size == pre.record_of(key)->0.size && post.record_of(
            key,
        )->0.last_modified == pre.record_of(key)->0.last_modified,
{
}

/// Access tracking. Let `states` be the states of a cache before and after each of a
/// row of reads of one key that returned bytes, and let the key's record show no hit
/// in the first state. With tracking on, the record in the last state shows as many
/// hits as there were reads; with tracking off it still shows none.
pub proof fn lemma_hits_count_reads(states: Seq<CacheView>, key: Seq<u8>)
    requires
        states.len() >= 1,
        states.len() - 1 <= u64::MAX,
        states[0].record_of(key) matches Some(m) && m.hits == 0,
        forall|i: int| 0 <= i < states.len() - 1 ==> read_served(states[i], key, #[trigger] states[i + 1]),
    ensures
        states.last().record_of(key) is Some,
        states.last().record_of(key)->0.hits == (if states[0].track_access {
            states.len() - 1
        } else {
            0
        }),
    decreases states.len(),
{
    if states.len() > 1 {
        let earlier = states.drop_last();
        assert forall|i: int| 0 <= i < earlier.len() - 1 implies read_served(
            earlier[i],
            key,
            #[trigger] earlier[i + 1],
        ) by {
            assert(read_served(states[i], key, states[i + 1]));
        }
        lemma_hits_count_reads(earlier, key);
        lemma_tracking_is_fixed(earlier, key);
        let n = states.len() - 2;
        assert(earlier.last() == states[n]);
        assert(read_served(states[n], key, states[n + 1]));
        lemma_read_counts_once(states[n], key, states[n + 1]);
    }
}

/// Reads do not switch tracking on or off.
pub proof fn lemma_tracking_is_fixed(states: Seq<CacheView>, key: Seq<u8>)
    requires
        states.len() >= 1,
        forall|i: int| 0 <= i < states.len() - 1 ==> read_served(states[i], key, #[trigger] states[i + 1]),
    ensures
        states.last().track_access == states[0].track_access,
    decreases states.len(),
{
    if states.len() > 1 {
        let earlier = states.drop_last();
        assert forall|i: int| 0 <= i < earlier.len() - 1 implies read_served(
            earlier[i],
            key,
            #[trigger] earlier[i + 1],
        ) by {
            assert(read_served(states[i], key, states[i + 1]));
        }
        lemma_tracking_is_fixed(earlier, key);
        let n = states.len() - 2;
        assert(read_served(states[n], key, states[n + 1]));
    }
}

/// The blob files as a caller keeps them that does what each step asks for, on a
/// filesystem that does not fail: the content of the file at each path below the root.
pub type Disk = Map<Seq<Seq<char>>, Seq<u8>>;

/// A whole write with such a caller: the value is put in place on the disk, then the
/// cache takes note of it.
pub open spec fn whole_write(
    pre: CacheView,
    disk: Disk,
    key: Seq<u8>,
    value: Seq<u8>,
    post: CacheView,
    disk_after: Disk,
    outcome: WriteStep,
) -> bool {
    exists|plan: WriteStep| #[trigger]
        write_started(pre, key, pre, plan) && (plan matches WriteStep::Store { destination, .. }
            && disk_after == disk.insert(destination.deep_view(), value)) && write_stored(
            pre,
            key,
            value,
            post,
            outcome,
        )
}

/// A whole read with such a caller: served from memory, or from the file where there
/// is one, or not found.
pub open spec fn whole_read(
    pre: CacheView,
    disk: Disk,
    key: Seq<u8>,
    post: CacheView,
    outcome: ReadStep,
) -> bool {
    exists|mid: CacheView, first: ReadStep| #[trigger]
        read_started(pre, key, mid, first) && match first {
            ReadStep::Load { path, .. } => if disk.contains_key(path.deep_view()) {
                read_loaded(mid, key, disk[path.deep_view()], post, outcome)
            } else {
                post == mid && (outcome matches ReadStep::Failed(e) && e is NotFound)
            },
            _ => post == mid && outcome == first,
        }
}

/// A whole removal with such a caller: where the file is there it is deleted and the
/// cache forgets the record; where it is not, the removal fails as not found.
pub open spec fn whole_remove(
    pre: CacheView,
    disk: Disk,
    key: Seq<u8>,
    post: CacheView,
    disk_after: Disk,
    outcome: RemoveStep,
) -> bool {
    exists|plan: RemoveStep| #[trigger]
        remove_started(pre, key, pre, plan) && (plan matches RemoveStep::Unlink { blob, .. }
            && if disk.contains_key(blob.deep_view()) {
            disk_after == disk.remove(blob.deep_view()) && remove_unlinked(pre, key, post, outcome)
        } else {
            disk_after == disk && post == pre && (outcome matches RemoveStep::Failed(e)
                && e is NotFound)
        })
}

/// Round trip, with the files. After a whole write of `value` under `key`, a whole read
/// of the key returns `value`, and the key's record gives the length of `value` as the
/// size. (With access tracking on, the read can fail where the metadata store fails
/// to count it; it cannot fail as not found.)
pub proof fn lemma_round_trip(
    before: CacheView,
    disk: Disk,
    key: Seq<u8>,
    value: Seq<u8>,
    written: CacheView,
    disk_written: Disk,
    done: WriteStep,
    after: CacheView,
    outcome: ReadStep,
)
    requires
        before.wf(),
        value.len() <= u64::MAX,
        whole_write(before, disk, key, value, written, disk_written, done),
        done is Done,
        whole_read(written, disk_written, key, after, outcome),
    ensures
        written.record_of(key) matches Some(record) && record.size == value.len(),
        match outcome {
            ReadStep::Done(bytes) => bytes_content(bytes) == value,
            ReadStep::Failed(e) => written.track_access && (e is MetaSer || e is MetaDb),
            ReadStep::Load { .. } => false,
        },
        !written.track_access ==> outcome is Done,
{
    if before.capacity > 0 {
        lemma_remembered_value(before.entries, before.capacity, key, value);
    }
}

/// Removal, with the files. After a whole write and a whole removal of a key, a whole
/// read fails as not found, from the memory layer and from the files alike, and the
/// key has no record; the record that the removal returned is the one that the write
/// made. The removal of a key that has no file fails as not found. (The removal can
/// fail where the metadata store fails; that case is left out.)
pub proof fn lemma_remove_clears(
    before: CacheView,
    disk: Disk,
    key: Seq<u8>,
    value: Seq<u8>,
    written: CacheView,
    disk_written: Disk,
    done: WriteStep,
    removed: CacheView,
    disk_removed: Disk,
    gone: RemoveStep,
    after: CacheView,
    outcome: ReadStep,
)
    requires
        before.wf(),
        whole_write(before, disk, key, value, written, disk_written, done),
        done is Done,
        whole_remove(written, disk_written, key, removed, disk_removed, gone),
        !(gone matches RemoveStep::Failed(ForcepError::MetaDb(_))),
        whole_read(removed, disk_removed, key, after, outcome),
    ensures
        gone matches RemoveStep::Done(meta) && done matches WriteStep::Done(made) && meta@
            == made@,
        !removed.records.contains_key(key),
        outcome matches ReadStep::Failed(e) && e is NotFound,
        removed.cached(key) is None,
        forall|other: CacheView, other_disk: Disk, failed: RemoveStep| #[trigger]
            whole_remove(removed, disk_removed, key, other, other_disk, failed) ==> (failed
                matches RemoveStep::Failed(e) && e is NotFound),
{
    if before.capacity > 0 {
        lemma_remembered_value(before.entries, before.capacity, key, value);
    }
    lemma_without_distinct(written.entries, md5_digest(key));
}

/// Overwrite, with the files. After two whole writes under one key, a whole read
/// returns the second value, and the key's record gives its length as the size.
pub proof fn lemma_overwrite(
    before: CacheView,
    disk: Disk,
    key: Seq<u8>,
    first: Seq<u8>,
    between: CacheView,
    disk_between: Disk,
    first_done: WriteStep,
    second: Seq<u8>,
    written: CacheView,
    disk_written: Disk,
    second_done: WriteStep,
    after: CacheView,
    outcome: ReadStep,
)
    requires
        before.wf(),
        second.len() <= u64::MAX,
        whole_write(before, disk, key, first, between, disk_between, first_done),
        first_done is Done,
        whole_write(between, disk_between, key, second, written, disk_written, second_done),
        second_done is Done,
        whole_read(written, disk_written, key, after, outcome),
    ensures
        written.record_of(key) matches Some(record) && record.size == second.len(),
        match outcome {
            ReadStep::Done(bytes) => bytes_content(bytes) == second,
            ReadStep::Failed(e) => written.track_access && (e is MetaSer || e is MetaDb),
            ReadStep::Load { .. } => false,
        },
{
    if before.capacity > 0 {
        lemma_remembered_value(before.entries, before.capacity, key, first);
    }
    lemma_round_trip(
        between,
        disk_between,
        key,
        second,
        written,
        disk_written,
        second_done,
        after,
        outcome,
    );
}

/// Keys do not disturb one another. A whole write under one key leaves the file and the
/// record of every other key as they were.
pub proof fn lemma_other_keys_are_left_alone(
    before: CacheView,
    disk: Disk,
    key: Seq<u8>,
    value: Seq<u8>,
    written: CacheView,
    disk_written: Disk,
    done: WriteStep,
    other: Seq<u8>,
)
    requires
        whole_write(before, disk, key, value, written, disk_written, done),
        done is Done,
        other != key,
    ensures
        ({
            let path = blob_path(other, before.dir_depth as nat);
            &&& disk_written.contains_key(path) == disk.contains_key(path)
            &&& disk.contains_key(path) ==> disk_written[path] == disk[path]
            &&& written.records.contains_key(other) == before.records.contains_key(other)
            &&& before.records.contains_key(other) ==> written.records[other]
                == before.records[other]
        }),
{
    lemma_paths_differ(other, key, before.dir_depth as nat);
}

} // verus!
