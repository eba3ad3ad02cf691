//! The per-key record and the key index: a sequence of records in which no
//! key occurs twice, read as a map from key to payload and access count.

use vstd::prelude::*;
use crate::payload::{payload_bytes, payload_len};

verus! {

/// What the cache holds under one key.
pub struct EntryView {
    pub payload: Seq<u8>,
    pub frequency: nat,
}

/// The mathematical content of a record: the key, the payload, the recorded
/// payload size, and the access count of the bucket that holds the key.
pub struct ItemView {
    pub key: Seq<char>,
    pub payload: Seq<u8>,
    pub size: nat,
    pub parent: nat,
}

impl ItemView {
    /// The record without its key and size.
    pub open spec fn entry(self) -> EntryView {
        EntryView { payload: self.payload, frequency: self.parent }
    }
}

/// The record of one key. `parent` names the key's bucket by its access
/// count, which no two buckets of a list share.
#[derive(Debug)]
pub struct Item {
    pub key: String,
    pub data: bytes::Bytes,
    pub size: usize,
    pub parent: u32,
}

impl View for Item {
    type V = ItemView;

    open spec fn view(&self) -> ItemView {
        ItemView {
            key: self.key@,
            payload: payload_bytes(self.data),
            size: self.size as nat,
            parent: self.parent as nat,
        }
    }
}

impl Item {
    /// A record for `key` that holds `data` and names the bucket for the
    /// access count `parent`. The recorded size is the payload's length.
    pub fn new(key: String, data: bytes::Bytes, parent: u32) -> (item: Self)
        ensures
            item@ == (ItemView {
                key: key@,
                payload: payload_bytes(data),
                size: payload_bytes(data).len(),
                parent: parent as nat,
            }),
            item.data == data,
    {
        let size = payload_len(&data);
        Item { key, data, size, parent }
    }
}

/// The records of a vector, in its order.
pub open spec fn records(items: Seq<Item>) -> Seq<ItemView> {
    Seq::new(items.len(), |i: int| items[i]@)
}

/// No two records have the same key.
pub open spec fn unique(index: Seq<ItemView>) -> bool {
    forall|i: int, j: int|
        0 <= i < j < index.len() ==> (#[trigger] index[i]).key != (#[trigger] index[j]).key
}

/// Every record's size is the length of its payload.
pub open spec fn sized(index: Seq<ItemView>) -> bool {
    forall|i: int| 0 <= i < index.len() ==> (#[trigger] index[i]).size == index[i].payload.len()
}

/// Some record has the key `key`.
pub open spec fn has_key(index: Seq<ItemView>, key: Seq<char>) -> bool {
    exists|i: int| 0 <= i < index.len() && (#[trigger] index[i]).key == key
}

/// Where the record of `key` stands.
pub open spec fn slot(index: Seq<ItemView>, key: Seq<char>) -> int {
    choose|i: int| 0 <= i < index.len() && (#[trigger] index[i]).key == key
}

/// The index as a map from key to payload and access count.
pub open spec fn entries(index: Seq<ItemView>) -> Map<Seq<char>, EntryView> {
    Map::new(|key: Seq<char>| has_key(index, key), |key: Seq<char>| index[slot(index, key)].entry())
}

/// Every key of a map with its access count.
pub open spec fn links(held: Map<Seq<char>, EntryView>) -> Set<(Seq<char>, nat)> {
    Set::new(|p: (Seq<char>, nat)| held.contains_key(p.0) && held[p.0].frequency == p.1)
}

/// The sum of the recorded sizes.
pub open spec fn total(index: Seq<ItemView>) -> nat
    decreases index.len(),
{
    if index.len() == 0 {
        0
    } else {
        total(index.drop_last()) + index.last().size
    }
}

/// The record at a position is what the map holds under its key.
pub proof fn lemma_entries_at(index: Seq<ItemView>, i: int)
    requires
        unique(index),
        0 <= i < index.len(),
    ensures
        entries(index).contains_key(index[i].key),
        entries(index)[index[i].key] == index[i].entry(),
        slot(index, index[i].key) == i,
{
    let key = index[i].key;
    assert(has_key(index, key));
    let j = slot(index, key);
    if j < i {
        assert(index[j].key != index[i].key);
    } else if i < j {
        assert(index[i].key != index[j].key);
    }
}

/// A record appended under a new key adds that key to the map and its size
/// to the sum.
pub proof fn lemma_entries_push(index: Seq<ItemView>, item: ItemView)
    requires
        unique(index),
        !has_key(index, item.key),
    ensures
        unique(index.push(item)),
        entries(index.push(item)) == entries(index).insert(item.key, item.entry()),
        total(index.push(item)) == total(index) + item.size,
{
    let after = index.push(item);
    assert(after.drop_last() =~= index);
    assert forall|i: int, j: int| 0 <= i < j < after.len() implies
        (#[trigger] after[i]).key != (#[trigger] after[j]).key by {
        if j < index.len() {
            assert(index[i].key != index[j].key);
        } else {
            assert(after[i] == index[i]);
        }
    }
    assert(after[index.len() as int] == item);
    lemma_entries_at(after, index.len() as int);
    assert forall|key: Seq<char>| has_key(after, key) <==> (has_key(index, key) || key == item.key) by {
        if has_key(after, key) {
            let i = slot(after, key);
            if i < index.len() {
                assert(index[i].key == key);
            }
        }
        if has_key(index, key) {
            let i = slot(index, key);
            assert(after[i].key == key);
        }
    }
    assert forall|key: Seq<char>| has_key(index, key) implies entries(after)[key] == entries(index)[key] by {
        let i = slot(index, key);
        assert(after[i] == index[i]);
        lemma_entries_at(after, i);
    }
    assert(entries(after) =~= entries(index).insert(item.key, item.entry()));
}

/// A record taken out takes its key out of the map and its size out of the
/// sum.
pub proof fn lemma_entries_remove(index: Seq<ItemView>, at: int)
    requires
        unique(index),
        0 <= at < index.len(),
    ensures
        unique(index.remove(at)),
        entries(index.remove(at)) == entries(index).remove(index[at].key),
        total(index.remove(at)) + index[at].size == total(index),
    decreases index.len(),
{
    let after = index.remove(at);
    assert forall|i: int, j: int| 0 <= i < j < after.len() implies
        (#[trigger] after[i]).key != (#[trigger] after[j]).key by {
        let i0 = if i < at { i } else { i + 1 };
        let j0 = if j < at { j } else { j + 1 };
        assert(after[i] == index[i0] && after[j] == index[j0]);
        assert(index[i0].key != index[j0].key);
    }
    lemma_entries_at(index, at);
    assert forall|key: Seq<char>| has_key(after, key) <==> (has_key(index, key) && key != index[at].key) by {
        if has_key(after, key) {
            let i = slot(after, key);
            let i0 = if i < at { i } else { i + 1 };
            assert(index[i0] == after[i]);
            lemma_entries_at(index, i0);
        }
        if has_key(index, key) && key != index[at].key {
            let i = slot(index, key);
            let i1 = if i < at { i } else { i - 1 };
            assert(after[i1] == index[i]);
        }
    }
    assert forall|key: Seq<char>| has_key(after, key) implies entries(after)[key] == entries(index)[key] by {
        let i = slot(after, key);
        let i0 = if i < at { i } else { i + 1 };
        assert(index[i0] == after[i]);
        lemma_entries_at(index, i0);
    }
    assert(entries(after) =~= entries(index).remove(index[at].key));
    if at == index.len() - 1 {
        assert(after =~= index.drop_last());
    } else {
        assert(after.drop_last() =~= index.drop_last().remove(at));
        assert(after.last() == index.last());
        assert forall|i: int, j: int| 0 <= i < j < index.drop_last().len() implies
            (#[trigger] index.drop_last()[i]).key != (#[trigger] index.drop_last()[j]).key by {
            assert(index[i].key != index[j].key);
        }
        lemma_entries_remove(index.drop_last(), at);
    }
}

/// A record rewritten under its own key, with its payload and size kept,
/// changes the map at that key only and leaves the sum as it was.
pub proof fn lemma_entries_relinked(index: Seq<ItemView>, at: int, parent: nat)
    requires
        unique(index),
        0 <= at < index.len(),
    ensures
        unique(index.update(at, ItemView { parent, ..index[at] })),
        sized(index) ==> sized(index.update(at, ItemView { parent, ..index[at] })),
        entries(index.update(at, ItemView { parent, ..index[at] })) == entries(index).insert(
            index[at].key,
            EntryView { payload: index[at].payload, frequency: parent },
        ),
        total(index.update(at, ItemView { parent, ..index[at] })) == total(index),
    decreases index.len(),
{
    let item = ItemView { parent, ..index[at] };
    let after = index.update(at, item);
    assert forall|i: int, j: int| 0 <= i < j < after.len() implies
        (#[trigger] after[i]).key != (#[trigger] after[j]).key by {
        assert(after[i].key == index[i].key && after[j].key == index[j].key);
    }
    if sized(index) {
        assert forall|i: int| 0 <= i < after.len() implies (#[trigger] after[i]).size
            == after[i].payload.len() by {
            assert(after[i].size == index[i].size && after[i].payload == index[i].payload);
        }
    }
    assert forall|key: Seq<char>| has_key(after, key) <==> has_key(index, key) by {
        if has_key(after, key) {
            let i = slot(after, key);
            assert(index[i].key == key);
        }
        if has_key(index, key) {
            let i = slot(index, key);
            assert(after[i].key == key);
        }
    }
    lemma_entries_at(index, at);
    lemma_entries_at(after, at);
    assert forall|key: Seq<char>| has_key(index, key) && key != index[at].key implies entries(after)[key]
        == entries(index)[key] by {
        let i = slot(index, key);
        assert(after[i] == index[i]);
        lemma_entries_at(after, i);
    }
    assert(entries(after) =~= entries(index).insert(
        index[at].key,
        EntryView { payload: index[at].payload, frequency: parent },
    ));
    if at == index.len() - 1 {
        assert(after.drop_last() =~= index.drop_last());
    } else {
        assert(after.drop_last() =~= index.drop_last().update(at, item));
        assert(after.last() == index.last());
        assert(index.drop_last()[at] == index[at]);
        assert forall|i: int, j: int| 0 <= i < j < index.drop_last().len() implies
            (#[trigger] index.drop_last()[i]).key != (#[trigger] index.drop_last()[j]).key by {
            assert(index[i].key != index[j].key);
        }
        lemma_entries_relinked(index.drop_last(), at, parent);
    }
}

/// The map has as many keys as the index has records.
pub proof fn lemma_entries_count(index: Seq<ItemView>)
    requires
        unique(index),
    ensures
        entries(index).dom().finite(),
        entries(index).dom().len() == index.len(),
    decreases index.len(),
{
    if index.len() == 0 {
        assert(entries(index).dom() =~= Set::<Seq<char>>::empty());
    } else {
        let init = index.drop_last();
        let last = index.last();
        assert(index =~= init.push(last));
        assert forall|i: int, j: int| 0 <= i < j < init.len() implies
            (#[trigger] init[i]).key != (#[trigger] init[j]).key by {
            assert(index[i].key != index[j].key);
        }
        if has_key(init, last.key) {
            let i = slot(init, last.key);
            assert(index[i].key != index[index.len() - 1].key);
        }
        lemma_entries_push(init, last);
        lemma_entries_count(init);
        assert(entries(index).dom() =~= entries(init).dom().insert(last.key));
    }
}

/// Two indexes that hold the same entries hold equally many records and
/// equally many bytes, in whatever order their records stand.
pub proof fn lemma_total_by_entries(x: Seq<ItemView>, y: Seq<ItemView>)
    requires
        unique(x),
        unique(y),
        sized(x),
        sized(y),
        entries(x) == entries(y),
    ensures
        x.len() == y.len(),
        total(x) == total(y),
    decreases x.len(),
{
    if x.len() == 0 {
        if y.len() > 0 {
            lemma_entries_at(y, 0);
            assert(has_key(x, y[0].key));
        }
    } else {
        let i = x.len() - 1;
        let key = x[i].key;
        lemma_entries_at(x, i);
        assert(has_key(y, key));
        let j = slot(y, key);
        lemma_entries_at(y, j);
        lemma_entries_remove(x, i);
        lemma_entries_remove(y, j);
        let x1 = x.remove(i);
        let y1 = y.remove(j);
        assert forall|a: int| 0 <= a < x1.len() implies (#[trigger] x1[a]).size
            == x1[a].payload.len() by {
            assert(x1[a] == x[a]);
        }
        assert forall|a: int| 0 <= a < y1.len() implies (#[trigger] y1[a]).size
            == y1[a].payload.len() by {
            let a0 = if a < j { a } else { a + 1 };
            assert(y1[a] == y[a0]);
        }
        lemma_total_by_entries(x1, y1);
    }
}

} // verus!
