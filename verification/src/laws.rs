//! What holds of every well-formed cache, and of every sequence of inserts
//! and lookups, stated over the cache's view and proved from the contracts
//! of its operations.

use vstd::prelude::*;
use crate::cache::{
    accessed, bumped, frequency_of, kept, lemma_present_accessed, looked_up, stored, LFU,
};
use crate::entry::{lemma_total_by_entries, links, total, EntryView};
use crate::list::{holds, lemma_bucket_unique, pairs};

verus! {

/// The byte count is the sum of the sizes of the entries in the index, and
/// every size is the length of its payload.
pub proof fn law_bytes_accounted(cache: LFU)
    requires
        cache.wf(),
    ensures
        cache.used() == total(cache.index()),
        forall|i: int|
            0 <= i < cache.index().len() ==> (#[trigger] cache.index()[i]).size
                == cache.index()[i].payload.len(),
{
}

/// The byte count and the number of entries depend on nothing but what the
/// cache holds: two caches with the same entries agree on both.
pub proof fn law_bytes_follow_entries(one: LFU, other: LFU)
    requires
        one.wf(),
        other.wf(),
        one@ == other@,
    ensures
        one.used() == other.used(),
        one.index().len() == other.index().len(),
{
    lemma_total_by_entries(one.index(), other.index());
}

/// The byte count never exceeds the limit.
pub proof fn law_within_limit(cache: LFU)
    requires
        cache.wf(),
    ensures
        cache.used() <= cache.limit(),
{
}

/// Every key of the index is in exactly one bucket of the list, the one for
/// its access count, and behind the sentinel.
pub proof fn law_one_bucket_per_key(cache: LFU, key: Seq<char>) -> (b: int)
    requires
        cache.wf(),
        cache@.contains_key(key),
    ensures
        1 <= b < cache.buckets().len(),
        cache.buckets()[b].keys.contains(key),
        cache.buckets()[b].frequency == cache@[key].frequency,
        forall|c: int|
            0 <= c < cache.buckets().len() && (#[trigger] cache.buckets()[c]).keys.contains(key)
                ==> c == b,
{
    let list = cache.buckets();
    let frequency = cache@[key].frequency;
    assert(links(cache@).contains((key, frequency)));
    assert(holds(list, key, frequency));
    let b = choose|b: int|
        0 <= b < list.len() && (#[trigger] list[b]).frequency == frequency && list[b].keys.contains(
            key,
        );
    assert forall|c: int| 0 <= c < list.len() && (#[trigger] list[c]).keys.contains(key) implies c
        == b by {
        assert(holds(list, key, list[c].frequency));
        assert(pairs(list).contains((key, list[c].frequency)));
        lemma_bucket_unique(list, c, b);
    }
    b
}

/// A bucket holds no key twice, and none that the index does not hold under
/// the bucket's access count.
pub proof fn law_buckets_hold_indexed_keys(cache: LFU, b: int, key: Seq<char>)
    requires
        cache.wf(),
        0 <= b < cache.buckets().len(),
        cache.buckets()[b].keys.contains(key),
    ensures
        cache.buckets()[b].keys.no_duplicates(),
        cache@.contains_key(key),
        cache@[key].frequency == cache.buckets()[b].frequency,
{
    let list = cache.buckets();
    assert(holds(list, key, list[b].frequency));
    assert(pairs(list).contains((key, list[b].frequency)));
}

/// A key that the cache holds has been accessed at least once, so that the
/// access count zero means that the key is absent.
pub proof fn law_present_keys_are_counted(cache: LFU, key: Seq<char>)
    requires
        cache.wf(),
    ensures
        frequency_of(cache@, key) == 0 <==> !cache@.contains_key(key),
{
    if cache@.contains_key(key) {
        lemma_present_accessed(cache.buckets(), cache@, key);
    }
}

/// The list starts with the sentinel, which has the access count zero and
/// no keys; every bucket behind it holds at least one key.
pub proof fn law_no_empty_bucket(cache: LFU, b: int)
    requires
        cache.wf(),
        1 <= b < cache.buckets().len(),
    ensures
        cache.buckets()[b].keys.len() > 0,
        cache.buckets()[0].frequency == 0,
        cache.buckets()[0].keys.len() == 0,
{
}

/// Access counts strictly increase along the list.
pub proof fn law_frequencies_increase(cache: LFU, a: int, b: int)
    requires
        cache.wf(),
        0 <= a < b < cache.buckets().len(),
    ensures
        cache.buckets()[a].frequency < cache.buckets()[b].frequency,
{
}

/// `held` after `n` lookups of `key`.
pub open spec fn accessed_times(held: Map<Seq<char>, EntryView>, key: Seq<char>, n: nat) -> Map<
    Seq<char>,
    EntryView,
>
    decreases n,
{
    if n == 0 {
        held
    } else {
        accessed(accessed_times(held, key, (n - 1) as nat), key)
    }
}

/// The access count of a key that is present rises by one with every
/// lookup, up to the largest count, and its payload stays.
pub proof fn law_lookups_are_counted(held: Map<Seq<char>, EntryView>, key: Seq<char>, n: nat)
    requires
        held.contains_key(key),
    ensures
        accessed_times(held, key, n).contains_key(key),
        looked_up(accessed_times(held, key, n), key) == looked_up(held, key),
        frequency_of(accessed_times(held, key, n), key) == if held[key].frequency + n <= u32::MAX {
            held[key].frequency + n
        } else if held[key].frequency <= u32::MAX {
            u32::MAX as nat
        } else {
            held[key].frequency
        },
    decreases n,
{
    if n > 0 {
        law_lookups_are_counted(held, key, (n - 1) as nat);
    }
}

/// A key that an insert created and that was then looked up `n` times has
/// the access count `1 + n`, up to the largest count. An insert under a key
/// that is present keeps the key's count.
pub proof fn law_frequency_counts_lookups(
    before: Map<Seq<char>, EntryView>,
    key: Seq<char>,
    payload: Seq<u8>,
    after: Map<Seq<char>, EntryView>,
    n: nat,
)
    requires
        stored(before, key, payload, after),
    ensures
        !before.contains_key(key) ==> frequency_of(accessed_times(after, key, n), key) == if 1 + n
            <= u32::MAX {
            1 + n
        } else {
            u32::MAX as nat
        },
        before.contains_key(key) ==> frequency_of(after, key) == frequency_of(before, key),
{
    law_lookups_are_counted(after, key, n);
}

/// A lookup that follows an insert under the same key finds the inserted
/// payload.
pub proof fn law_insert_then_get(
    before: Map<Seq<char>, EntryView>,
    key: Seq<char>,
    payload: Seq<u8>,
    after: Map<Seq<char>, EntryView>,
)
    requires
        stored(before, key, payload, after),
    ensures
        looked_up(after, key) == Some(payload),
        looked_up(accessed(after, key), key) == Some(payload),
{
}

/// Of two inserts under one key the second decides what a lookup finds, and
/// it leaves the key's access count as the first left it.
pub proof fn law_last_insert_wins(
    before: Map<Seq<char>, EntryView>,
    key: Seq<char>,
    first: Seq<u8>,
    between: Map<Seq<char>, EntryView>,
    second: Seq<u8>,
    after: Map<Seq<char>, EntryView>,
)
    requires
        stored(before, key, first, between),
        stored(between, key, second, after),
    ensures
        looked_up(after, key) == Some(second),
        frequency_of(after, key) == frequency_of(between, key),
{
}

/// An insert under another key leaves an entry as it was, unless it
/// discards the entry.
pub proof fn law_insert_keeps_others(
    before: Map<Seq<char>, EntryView>,
    key: Seq<char>,
    payload: Seq<u8>,
    after: Map<Seq<char>, EntryView>,
    other: Seq<char>,
)
    requires
        stored(before, key, payload, after),
        other != key,
        after.contains_key(other),
    ensures
        before.contains_key(other),
        looked_up(after, other) == looked_up(before, other),
        frequency_of(after, other) == frequency_of(before, other),
{
    assert(after.remove(key).contains_key(other));
    assert(kept(before.remove(key), after.remove(key)));
}

/// No lookup lowers the access count of any key.
pub proof fn law_lookup_never_lowers(
    held: Map<Seq<char>, EntryView>,
    key: Seq<char>,
    other: Seq<char>,
)
    ensures
        frequency_of(accessed(held, key), other) >= frequency_of(held, other),
        other != key ==> frequency_of(accessed(held, key), other) == frequency_of(held, other),
        held.contains_key(key) ==> frequency_of(accessed(held, key), key) == bumped(
            frequency_of(held, key),
        ),
{
}

/// No insert lowers the access count of a key that the cache still holds
/// afterwards; a key that it discards is absent, with the count zero.
pub proof fn law_insert_never_lowers(
    before: Map<Seq<char>, EntryView>,
    key: Seq<char>,
    payload: Seq<u8>,
    after: Map<Seq<char>, EntryView>,
    other: Seq<char>,
)
    requires
        stored(before, key, payload, after),
    ensures
        after.contains_key(other) ==> frequency_of(after, other) >= frequency_of(before, other),
        !after.contains_key(other) ==> frequency_of(after, other) == 0,
{
    if after.contains_key(other) && other != key {
        law_insert_keeps_others(before, key, payload, after, other);
    }
}

} // verus!
