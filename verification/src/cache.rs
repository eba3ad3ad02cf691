//! The cache itself: the key index and the frequency list kept in step,
//! with the byte count and the eviction loop.

use vstd::prelude::*;
use crate::bucket::BucketView;
use crate::entry::{
    entries, has_key, lemma_entries_at, lemma_entries_count, lemma_entries_push, lemma_entries_relinked,
    lemma_entries_remove, links, records, sized, total, unique, EntryView, Item, ItemView,
};
use crate::list::{compact, fresh, holds, lemma_bucket_unique, linked, pairs, FrequencyList};
use crate::payload::{payload_bytes, payload_len};

verus! {

/// Why an insert was refused.
#[derive(Debug, PartialEq, Eq, Structural)]
pub enum InsertError {
    /// The payload alone is larger than the cache may ever hold.
    PayloadTooLarge,
}

/// A cache from string keys to byte payloads that discards the least
/// frequently used entries when the payloads would exceed its limit.
#[derive(Debug)]
pub struct LFU {
    items: Vec<Item>,
    frequency_list: FrequencyList,
    max_size: usize,
    current_size: usize,
}

/// The access count after one more access. It stops at the largest count
/// that a bucket can carry.
pub open spec fn bumped(frequency: nat) -> nat {
    if frequency < u32::MAX {
        frequency + 1
    } else {
        frequency
    }
}

/// The access count of `key` in `held`; zero where the key is absent.
pub open spec fn frequency_of(held: Map<Seq<char>, EntryView>, key: Seq<char>) -> nat {
    if held.contains_key(key) {
        held[key].frequency
    } else {
        0
    }
}

/// What a lookup of `key` in `held` returns.
pub open spec fn looked_up(held: Map<Seq<char>, EntryView>, key: Seq<char>) -> Option<Seq<u8>> {
    if held.contains_key(key) {
        Some(held[key].payload)
    } else {
        None
    }
}

/// What `held` becomes by a lookup of `key`: a key that is present is
/// accessed once more, and nothing else changes.
pub open spec fn accessed(held: Map<Seq<char>, EntryView>, key: Seq<char>) -> Map<
    Seq<char>,
    EntryView,
> {
    if held.contains_key(key) {
        held.insert(
            key,
            EntryView { payload: held[key].payload, frequency: bumped(held[key].frequency) },
        )
    } else {
        held
    }
}

/// Every entry of `after` is an entry of `before`, unchanged.
pub open spec fn kept(before: Map<Seq<char>, EntryView>, after: Map<Seq<char>, EntryView>) -> bool {
    forall|k: Seq<char>| #[trigger]
        after.contains_key(k) ==> before.contains_key(k) && after[k] == before[k]
}

/// No entry that left `before` had been accessed more often than one that
/// stayed.
pub open spec fn least_first(
    before: Map<Seq<char>, EntryView>,
    after: Map<Seq<char>, EntryView>,
) -> bool {
    forall|a: Seq<char>, b: Seq<char>|
        before.contains_key(a) && !after.contains_key(a) && #[trigger] after.contains_key(b)
            ==> (#[trigger] before[a]).frequency <= before[b].frequency
}

/// Nothing left without need: where entries of `before` are gone, one of
/// them would not have fit into `room` beside the `used` bytes that stayed.
pub open spec fn forced(
    before: Map<Seq<char>, EntryView>,
    after: Map<Seq<char>, EntryView>,
    used: int,
    room: int,
) -> bool {
    after != before ==> exists|a: Seq<char>|
        #![trigger before.contains_key(a)]
        before.contains_key(a) && !after.contains_key(a) && used + before[a].payload.len() > room
}

/// The bytes that `held` has under `key`; zero where the key is absent.
pub open spec fn bytes_under(held: Map<Seq<char>, EntryView>, key: Seq<char>) -> nat {
    if held.contains_key(key) {
        held[key].payload.len()
    } else {
        0
    }
}

/// What a successful insert of `payload` under `key` makes of `before`:
/// the key holds the payload, with the access count it had, or 1 where it is
/// new; every other entry is unchanged or gone, and the ones that are gone
/// were the least accessed.
pub open spec fn stored(
    before: Map<Seq<char>, EntryView>,
    key: Seq<char>,
    payload: Seq<u8>,
    after: Map<Seq<char>, EntryView>,
) -> bool {
    &&& after.contains_key(key)
    &&& after[key] == EntryView {
        payload,
        frequency: if before.contains_key(key) {
            before[key].frequency
        } else {
            1
        },
    }
    &&& kept(before.remove(key), after.remove(key))
    &&& least_first(before.remove(key), after.remove(key))
}

/// A key that the index holds, where index and list agree, has been
/// accessed at least once: only the sentinel has the count zero, and it is
/// empty.
pub proof fn lemma_present_accessed(
    list: Seq<BucketView>,
    held: Map<Seq<char>, EntryView>,
    key: Seq<char>,
)
    requires
        linked(list),
        pairs(list) == links(held),
        held.contains_key(key),
    ensures
        held[key].frequency >= 1,
{
    assert(links(held).contains((key, held[key].frequency)));
    assert(holds(list, key, held[key].frequency));
    let b = choose|b: int|
        0 <= b < list.len() && (#[trigger] list[b]).frequency == held[key].frequency
            && list[b].keys.contains(key);
    if b > 0 {
        assert(list[0].frequency < list[b].frequency);
    }
}

/// Some bucket of `list` has the access count `frequency`.
pub open spec fn has_bucket(list: Seq<BucketView>, frequency: nat) -> bool {
    exists|b: int| 0 <= b < list.len() && (#[trigger] list[b]).frequency == frequency
}

/// The keys of the bucket of `list` that has the access count `frequency`;
/// none where there is no such bucket.
pub open spec fn members(list: Seq<BucketView>, frequency: nat) -> Seq<Seq<char>> {
    if has_bucket(list, frequency) {
        list[choose|b: int| 0 <= b < list.len() && (#[trigger] list[b]).frequency == frequency].keys
    } else {
        Seq::empty()
    }
}

impl View for LFU {
    type V = Map<Seq<char>, EntryView>;

    /// The cache as a map from key to payload and access count.
    open spec fn view(&self) -> Map<Seq<char>, EntryView> {
        entries(self.index())
    }
}

impl LFU {
    /// The records of the key index.
    pub closed spec fn index(&self) -> Seq<ItemView> {
        records(self.items@)
    }

    /// The frequency list from the sentinel head on.
    pub closed spec fn buckets(&self) -> Seq<BucketView> {
        self.frequency_list@
    }

    /// The largest total of payload bytes that the cache may hold.
    pub closed spec fn limit(&self) -> nat {
        self.max_size as nat
    }

    /// The running count of payload bytes.
    pub closed spec fn used(&self) -> nat {
        self.current_size as nat
    }

    /// The index and the list agree, and the byte count is right and within
    /// the limit.
    pub open spec fn wf(&self) -> bool {
        &&& unique(self.index())
        &&& sized(self.index())
        &&& self.used() == total(self.index())
        &&& self.used() <= self.limit()
        &&& linked(self.buckets())
        &&& compact(self.buckets())
        &&& pairs(self.buckets()) == links(self@)
    }

    /// An empty cache that may hold 64 bytes.
    pub fn new() -> (cache: Self)
        ensures
            cache.wf(),
            cache.limit() == 64,
            cache.used() == 0,
            cache.index() == Seq::<ItemView>::empty(),
            cache.buckets() == seq![fresh(0)],
            cache@ == Map::<Seq<char>, EntryView>::empty(),
    {
        let cache = LFU {
            items: Vec::new(),
            frequency_list: FrequencyList::new(),
            max_size: 64,
            current_size: 0,
        };
        proof {
            assert(cache.index() =~= Seq::<ItemView>::empty());
            assert(cache@ =~= Map::<Seq<char>, EntryView>::empty());
            let list = cache.buckets();
            assert forall|p: (Seq<char>, nat)| !holds(list, p.0, p.1) by {
                if holds(list, p.0, p.1) {
                    let b = choose|b: int|
                        0 <= b < list.len() && (#[trigger] list[b]).frequency == p.1
                            && list[b].keys.contains(p.0);
                    assert(list[b] == fresh(0));
                }
            }
            assert(pairs(list) =~= links(cache@));
        }
        cache
    }

    /// An empty cache that may hold `max_bytes` bytes. With the limit zero
    /// the cache accepts empty payloads only.
    pub fn with_max_bytes(max_bytes: usize) -> (cache: Self)
        ensures
            cache.wf(),
            cache.limit() == max_bytes,
            cache.used() == 0,
            cache.index() == Seq::<ItemView>::empty(),
            cache.buckets() == seq![fresh(0)],
            cache@ == Map::<Seq<char>, EntryView>::empty(),
    {
        LFU::new().max_size(max_bytes)
    }

    /// The same cache with the limit `size`. Where more than `size` bytes
    /// are in use, entries are discarded first, least accessed first, until
    /// the rest fits.
    pub fn max_size(self, size: usize) -> (cache: Self)
        requires
            self.wf(),
        ensures
            cache.wf(),
            cache.limit() == size,
            kept(self@, cache@),
            least_first(self@, cache@),
            forced(self@, cache@, cache.used() as int, size as int),
            self.used() <= size ==> cache.index() == self.index() && cache.buckets()
                == self.buckets() && cache.used() == self.used(),
    {
        let mut cache = self;
        cache.reduce_to(size);
        cache.max_size = size;
        cache
    }

    /// The limit on the total of payload bytes.
    pub fn max_bytes(&self) -> (n: usize)
        ensures
            n == self.limit(),
    {
        self.max_size
    }

    /// The payload bytes in use: the sum of the sizes of all entries.
    pub fn size_bytes(&self) -> (n: usize)
        requires
            self.wf(),
        ensures
            n == self.used(),
            n == total(self.index()),
    {
        self.current_size
    }

    /// The number of entries.
    pub fn len(&self) -> (n: usize)
        requires
            self.wf(),
        ensures
            n == self.index().len(),
            self@.dom().finite(),
            n == self@.dom().len(),
    {
        proof {
            lemma_entries_count(self.index());
        }
        self.items.len()
    }

    /// Whether the cache holds `key`. Nothing changes, access counts
    /// included.
    pub fn contains(&self, key: &str) -> (present: bool)
        ensures
            present == self@.contains_key(key@),
    {
        let owned = key.to_owned();
        self.find(&owned).is_some()
    }

    /// The access count of `key`: 1 after the insert that created the entry,
    /// one more for every lookup since, and 0 where the cache does not hold
    /// the key.
    pub fn get_frequency(&self, key: &str) -> (frequency: usize)
        requires
            self.wf(),
        ensures
            frequency == frequency_of(self@, key@),
            frequency > 0 <==> self@.contains_key(key@),
    {
        let owned = key.to_owned();
        match self.find(&owned) {
            Some(i) => {
                proof {
                    lemma_entries_at(self.index(), i as int);
                    lemma_present_accessed(self.buckets(), self@, key@);
                }
                self.items[i].parent as usize
            },
            None => 0,
        }
    }

    /// Looks `key` up. A key that is present is promoted to the bucket of
    /// the next access count and its payload is returned; for an absent key
    /// nothing changes.
    pub fn get(&mut self, key: &str) -> (found: Option<&bytes::Bytes>)
        requires
            old(self).wf(),
        ensures
            final(self).wf(),
            final(self).limit() == old(self).limit(),
            final(self).used() == old(self).used(),
            final(self)@ == accessed(old(self)@, key@),
            match found {
                Some(payload) => looked_up(old(self)@, key@) == Some(payload_bytes(*payload)),
                None => looked_up(old(self)@, key@).is_none(),
            },
            !old(self)@.contains_key(key@) ==> final(self).index() == old(self).index() && final(self).buckets() == old(self).buckets(),
    {
        let owned = key.to_owned();
        let ghost before = self.index();
        let ghost held = self@;
        match self.find(&owned) {
            Some(i) => {
                proof {
                    lemma_entries_at(before, i as int);
                }
                let frequency = self.items[i].parent;
                if frequency < u32::MAX {
                    proof {
                        lemma_entries_relinked(before, i as int, frequency as nat + 1);
                        assert(links(held).contains((key@, frequency as nat)));
                        assert(!links(held).contains((key@, frequency as nat + 1)));
                    }
                    self.frequency_list.promote(&owned, frequency);
                    self.items[i].parent = frequency + 1;
                    proof {
                        assert(self.index() =~= before.update(
                            i as int,
                            ItemView { parent: frequency as nat + 1, ..before[i as int] },
                        ));
                        assert(links(self@) =~= links(held).remove((key@, frequency as nat)).insert(
                            (key@, frequency as nat + 1),
                        ));
                    }
                } else {
                    assert(self@ =~= accessed(held, key@));
                }
                Some(&self.items[i].data)
            },
            None => None,
        }
    }

    /// Stores `value` under `key`. A payload larger than the limit is
    /// refused and nothing changes. Otherwise the previous payload of the
    /// key is returned, if it had one, and the key keeps its access count,
    /// or starts at 1. Other entries are discarded, least accessed first,
    /// as far as the new payload needs their room, and not at all where it
    /// fits beside them.
    pub fn insert(&mut self, key: String, value: bytes::Bytes) -> (outcome: Result<
        Option<bytes::Bytes>,
        InsertError,
    >)
        requires
            old(self).wf(),
        ensures
            final(self).wf(),
            final(self).limit() == old(self).limit(),
            outcome.is_err() <==> payload_bytes(value).len() > old(self).limit(),
            match outcome {
                Err(e) => {
                    &&& e == InsertError::PayloadTooLarge
                    &&& final(self).index() == old(self).index()
                    &&& final(self).buckets() == old(self).buckets()
                    &&& final(self).used() == old(self).used()
                },
                Ok(previous) => {
                    &&& stored(old(self)@, key@, payload_bytes(value), final(self)@)
                    &&& match previous {
                        Some(payload) => looked_up(old(self)@, key@) == Some(payload_bytes(payload)),
                        None => looked_up(old(self)@, key@).is_none(),
                    }
                    &&& forced(
                        old(self)@.remove(key@),
                        final(self)@.remove(key@),
                        final(self).used() - payload_bytes(value).len(),
                        old(self).limit() - payload_bytes(value).len(),
                    )
                    &&& old(self).used() - bytes_under(old(self)@, key@) + payload_bytes(value).len()
                        <= old(self).limit() ==> {
                        &&& final(self)@ == old(self)@.insert(key@, final(self)@[key@])
                        &&& final(self).used() == old(self).used() - bytes_under(old(self)@, key@)
                            + payload_bytes(value).len()
                    }
                },
            },
    {
        let size = payload_len(&value);
        if size > self.max_size {
            return Err(InsertError::PayloadTooLarge);
        }
        let ghost held = self@;
        let mut previous: Option<bytes::Bytes> = None;
        let mut frequency: u32 = 1;
        match self.find(&key) {
            Some(i) => {
                proof {
                    lemma_entries_at(self.index(), i as int);
                    lemma_present_accessed(self.buckets(), held, key@);
                }
                let item = self.take(i);
                frequency = item.parent;
                previous = Some(item.data);
            },
            None => {},
        }
        let ghost base = self@;
        assert(base =~= held.remove(key@));
        self.reduce_to(self.max_size - size);
        let ghost rest = self@;
        self.put(Item::new(key, value, frequency));
        proof {
            assert(self@.remove(key@) =~= rest);
            if old(self).used() - bytes_under(held, key@) + payload_bytes(value).len() <= old(self).limit() {
                assert(rest == base);
                assert(self@ =~= held.insert(key@, self@[key@]));
            }
        }
        Ok(previous)
    }

    /// Takes `key` out of the cache and returns its payload, if it had one.
    pub fn remove(&mut self, key: &str) -> (removed: Option<bytes::Bytes>)
        requires
            old(self).wf(),
        ensures
            final(self).wf(),
            final(self).limit() == old(self).limit(),
            final(self)@ == old(self)@.remove(key@),
            final(self).used() == old(self).used() - bytes_under(old(self)@, key@),
            match removed {
                Some(payload) => looked_up(old(self)@, key@) == Some(payload_bytes(payload)),
                None => looked_up(old(self)@, key@).is_none(),
            },
    {
        let owned = key.to_owned();
        match self.find(&owned) {
            Some(i) => {
                proof {
                    lemma_entries_at(self.index(), i as int);
                }
                let item = self.take(i);
                Some(item.data)
            },
            None => {
                assert(self@.remove(key@) =~= self@);
                None
            },
        }
    }

    /// The access counts of the buckets along the frequency list, the
    /// sentinel's zero first.
    pub fn frequencies(&self) -> (counts: Vec<u32>)
        ensures
            counts@.len() == self.buckets().len(),
            forall|b: int| 0 <= b < counts@.len() ==> (#[trigger] counts@[b]) == self.buckets()[b].frequency,
    {
        let n: usize = self.frequency_list.len();
        let mut counts: Vec<u32> = Vec::new();
        let mut b: usize = 0;
        while b < n
            invariant
                b <= n,
                n == self.buckets().len(),
                counts@.len() == b,
                forall|c: int| 0 <= c < b ==> (#[trigger] counts@[c]) == self.buckets()[c].frequency,
            decreases n - b,
        {
            counts.push(self.frequency_list.frequency_at(b));
            b += 1;
        }
        counts
    }

    /// The keys that have the access count `frequency`, oldest member of
    /// the bucket first; none where the list has no bucket for that count.
    pub fn keys_with(&self, frequency: u32) -> (keys: Vec<String>)
        requires
            self.wf(),
        ensures
            keys@.len() == members(self.buckets(), frequency as nat).len(),
            forall|i: int|
                0 <= i < keys@.len() ==> (#[trigger] keys@[i])@ == members(
                    self.buckets(),
                    frequency as nat,
                )[i],
    {
        let ghost list = self.buckets();
        match self.frequency_list.find(frequency) {
            Some(b) => {
                proof {
                    assert(has_bucket(list, frequency as nat));
                    let c = choose|c: int|
                        0 <= c < list.len() && (#[trigger] list[c]).frequency == frequency;
                    lemma_bucket_unique(list, c, b as int);
                }
                self.frequency_list.keys_at(b)
            },
            None => Vec::new(),
        }
    }

    /// Where the record of `key` stands in the index.
    fn find(&self, key: &String) -> (at: Option<usize>)
        ensures
            match at {
                Some(i) => i < self.index().len() && self.index()[i as int].key == key@,
                None => !has_key(self.index(), key@),
            },
    {
        let mut i: usize = 0;
        while i < self.items.len()
            invariant
                i <= self.items@.len(),
                self.index().len() == self.items@.len(),
                forall|j: int| 0 <= j < i ==> (#[trigger] self.index()[j]).key != key@,
            decreases self.items.len() - i,
        {
            if self.items[i].key == *key {
                return Some(i);
            }
            i += 1;
        }
        None
    }

    /// Takes the record at `at` out of the index and its key out of its
    /// bucket.
    fn take(&mut self, at: usize) -> (item: Item)
        requires
            old(self).wf(),
            at < old(self).index().len(),
        ensures
            final(self).wf(),
            item@ == old(self).index()[at as int],
            final(self).index() == old(self).index().remove(at as int),
            final(self)@ == old(self)@.remove(item@.key),
            final(self).limit() == old(self).limit(),
            final(self).used() + item@.size == old(self).used(),
    {
        let ghost before = self.index();
        let ghost held = self@;
        proof {
            lemma_entries_at(before, at as int);
            lemma_entries_remove(before, at as int);
            assert(links(held).contains((before[at as int].key, before[at as int].parent)));
        }
        let item = self.items.remove(at);
        assert(self.index() =~= before.remove(at as int));
        self.frequency_list.detach(&item.key, item.parent);
        self.current_size = self.current_size - item.size;
        proof {
            assert(links(self@) =~= links(held).remove((item@.key, item@.parent)));
            assert forall|i: int| 0 <= i < self.index().len() implies (#[trigger] self.index()[i]).size
                == self.index()[i].payload.len() by {
                let i0 = if i < at { i } else { i + 1 };
                assert(self.index()[i] == before[i0]);
            }
        }
        item
    }

    /// Adds a record under a key that the cache does not hold, and the key
    /// to the bucket that the record names.
    fn put(&mut self, item: Item)
        requires
            old(self).wf(),
            !old(self)@.contains_key(item@.key),
            item@.parent >= 1,
            item@.size == item@.payload.len(),
            old(self).used() + item@.size <= old(self).limit(),
        ensures
            final(self).wf(),
            final(self).index() == old(self).index().push(item@),
            final(self)@ == old(self)@.insert(item@.key, item@.entry()),
            final(self).limit() == old(self).limit(),
            final(self).used() == old(self).used() + item@.size,
    {
        let ghost before = self.index();
        let ghost held = self@;
        proof {
            lemma_entries_push(before, item@);
            assert(!links(held).contains((item@.key, item@.parent)));
        }
        self.frequency_list.place(item.key.clone(), item.parent);
        self.current_size = self.current_size + item.size;
        self.items.push(item);
        proof {
            assert(self.index() =~= before.push(item@));
            assert(links(self@) =~= links(held).insert((item@.key, item@.parent)));
            assert forall|i: int| 0 <= i < self.index().len() implies (#[trigger] self.index()[i]).size
                == self.index()[i].payload.len() by {
                if i < before.len() {
                    assert(self.index()[i] == before[i]);
                }
            }
        }
    }

    /// Discards entries, least accessed first, until at most `target` bytes
    /// are in use.
    fn reduce_to(&mut self, target: usize)
        requires
            old(self).wf(),
        ensures
            final(self).wf(),
            final(self).limit() == old(self).limit(),
            final(self).used() <= target,
            kept(old(self)@, final(self)@),
            least_first(old(self)@, final(self)@),
            forced(old(self)@, final(self)@, final(self).used() as int, target as int),
            old(self).used() <= target ==> final(self).index() == old(self).index()
                && final(self).buckets() == old(self).buckets() && final(self).used() == old(self).used(),
    {
        while self.current_size > target
            invariant
                self.wf(),
                self.limit() == old(self).limit(),
                kept(old(self)@, self@),
                least_first(old(self)@, self@),
                forced(old(self)@, self@, self.used() as int, target as int),
                old(self).used() <= target ==> self.index() == old(self).index() && self.buckets()
                    == old(self).buckets() && self.used() == old(self).used(),
            decreases self.items@.len(),
        {
            let ghost held = self@;
            let ghost index = self.index();
            match self.frequency_list.lowest() {
                Some((key, frequency)) => {
                    assert(pairs(self.buckets()).contains((key@, frequency as nat)));
                    match self.find(&key) {
                        Some(i) => {
                            proof {
                                lemma_entries_at(index, i as int);
                                assert forall|b: Seq<char>| #[trigger]
                                    held.contains_key(b) implies frequency <= held[b].frequency by {
                                    assert(links(held).contains((b, held[b].frequency)));
                                }
                            }
                            let _ = self.take(i);
                            proof {
                                assert(old(self)@.contains_key(key@) && !self@.contains_key(key@)
                                    && self.used() + old(self)@[key@].payload.len() > target);
                            }
                        },
                        None => {},
                    }
                },
                None => {
                    proof {
                        if index.len() > 0 {
                            lemma_entries_at(index, 0);
                            assert(links(held).contains((index[0].key, index[0].parent)));
                        }
                    }
                },
            }
        }
    }
}

} // verus!
