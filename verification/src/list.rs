//! The frequency list: buckets in strictly increasing order of access count,
//! behind a permanent empty bucket for the count zero.

use vstd::prelude::*;
use crate::bucket::{lemma_without_members, without, BucketView, FrequencyNode};

verus! {

/// The buckets from the head on. Position 0 is the sentinel head; the
/// successor of a bucket is the one at the next position.
#[derive(Debug)]
pub struct FrequencyList {
    nodes: Vec<FrequencyNode>,
}

impl View for FrequencyList {
    type V = Seq<BucketView>;

    closed spec fn view(&self) -> Seq<BucketView> {
        Seq::new(self.nodes@.len(), |i: int| self.nodes@[i]@)
    }
}

/// An empty bucket for the access count `frequency`.
pub open spec fn fresh(frequency: nat) -> BucketView {
    BucketView { frequency, keys: Seq::empty() }
}

/// The list starts with the sentinel: count zero, no keys.
pub open spec fn anchored(list: Seq<BucketView>) -> bool {
    list.len() >= 1 && list[0].frequency == 0 && list[0].keys.len() == 0
}

/// Access counts strictly increase along the list.
pub open spec fn ordered(list: Seq<BucketView>) -> bool {
    forall|i: int, j: int|
        0 <= i < j < list.len() ==> (#[trigger] list[i]).frequency < (#[trigger] list[j]).frequency
}

/// No bucket holds a key twice.
pub open spec fn distinct(list: Seq<BucketView>) -> bool {
    forall|b: int| 0 <= b < list.len() ==> (#[trigger] list[b]).keys.no_duplicates()
}

/// Every bucket behind the sentinel holds at least one key.
pub open spec fn compact(list: Seq<BucketView>) -> bool {
    forall|b: int| 1 <= b < list.len() ==> (#[trigger] list[b]).keys.len() > 0
}

/// What every list satisfies between the steps of an operation.
pub open spec fn linked(list: Seq<BucketView>) -> bool {
    anchored(list) && ordered(list) && distinct(list)
}

/// Some bucket with the access count `frequency` holds `key`.
pub open spec fn holds(list: Seq<BucketView>, key: Seq<char>, frequency: nat) -> bool {
    exists|b: int|
        0 <= b < list.len() && (#[trigger] list[b]).frequency == frequency && list[b].keys.contains(
            key,
        )
}

/// Every key in the list, paired with the access count of its bucket.
pub open spec fn pairs(list: Seq<BucketView>) -> Set<(Seq<char>, nat)> {
    Set::new(|p: (Seq<char>, nat)| holds(list, p.0, p.1))
}

/// `list` with a bucket for `target` directly behind position `pos`: the one
/// that is already there, or else a fresh one spliced in.
pub open spec fn with_successor(list: Seq<BucketView>, pos: int, target: nat) -> Seq<BucketView> {
    if pos + 1 < list.len() && list[pos + 1].frequency == target {
        list
    } else {
        list.insert(pos + 1, fresh(target))
    }
}

/// `list` with `key` appended to the bucket at `pos`.
pub open spec fn with_key(list: Seq<BucketView>, pos: int, key: Seq<char>) -> Seq<BucketView> {
    list.update(pos, BucketView { frequency: list[pos].frequency, keys: list[pos].keys.push(key) })
}

/// `list` with `key` taken out of the bucket at `pos`.
pub open spec fn without_key(list: Seq<BucketView>, pos: int, key: Seq<char>) -> Seq<BucketView> {
    list.update(
        pos,
        BucketView { frequency: list[pos].frequency, keys: without(list[pos].keys, key) },
    )
}

impl FrequencyList {
    /// A list that holds the sentinel head and nothing else.
    pub fn new() -> (list: Self)
        ensures
            list@ == seq![fresh(0)],
            linked(list@),
            compact(list@),
    {
        let mut nodes: Vec<FrequencyNode> = Vec::new();
        nodes.push(FrequencyNode::new(0));
        let list = FrequencyList { nodes };
        assert(list@ =~= seq![fresh(0)]);
        list
    }

    /// The number of buckets, the sentinel included.
    pub fn len(&self) -> (n: usize)
        ensures
            n == self@.len(),
    {
        self.nodes.len()
    }

    /// The access count of the bucket at `pos`.
    pub fn frequency_at(&self, pos: usize) -> (f: u32)
        requires
            pos < self@.len(),
        ensures
            f == self@[pos as int].frequency,
    {
        self.nodes[pos].frequency()
    }

    /// The keys of the bucket at `pos`, oldest member first.
    pub fn keys_at(&self, pos: usize) -> (keys: Vec<String>)
        requires
            pos < self@.len(),
        ensures
            keys@.len() == self@[pos as int].keys.len(),
            forall|i: int|
                0 <= i < keys@.len() ==> (#[trigger] keys@[i])@ == self@[pos as int].keys[i],
    {
        self.nodes[pos].keys()
    }

    /// The position of the bucket whose access count is `frequency`.
    pub fn find(&self, frequency: u32) -> (at: Option<usize>)
        ensures
            match at {
                Some(b) => b < self@.len() && self@[b as int].frequency == frequency,
                None => forall|b: int| 0 <= b < self@.len() ==> (#[trigger] self@[b]).frequency != frequency,
            },
    {
        let mut i: usize = 0;
        while i < self.nodes.len()
            invariant
                i <= self@.len(),
                self@.len() == self.nodes@.len(),
                forall|b: int| 0 <= b < i ==> (#[trigger] self@[b]).frequency != frequency,
            decreases self.nodes.len() - i,
        {
            if self.nodes[i].frequency() == frequency {
                return Some(i);
            }
            i += 1;
        }
        None
    }

    /// The last position whose bucket has an access count below `frequency`.
    pub fn predecessor(&self, frequency: u32) -> (at: usize)
        requires
            linked(self@),
            frequency >= 1,
        ensures
            at < self@.len(),
            self@[at as int].frequency < frequency,
            at + 1 < self@.len() ==> frequency <= self@[at + 1].frequency,
    {
        let n: usize = self.nodes.len();
        let mut i: usize = 0;
        while i + 1 < n && self.nodes[i + 1].frequency() < frequency
            invariant
                i < n,
                n == self@.len(),
                n == self.nodes@.len(),
                self@[i as int].frequency < frequency,
            decreases n - i,
        {
            i += 1;
        }
        i
    }

    /// Splices a fresh bucket for `new_frequency` in directly behind the
    /// bucket at `pos` and returns its position.
    pub fn insert_after(&mut self, pos: usize, new_frequency: u32) -> (at: usize)
        requires
            pos < old(self)@.len(),
            old(self)@[pos as int].frequency < new_frequency,
            pos + 1 < old(self)@.len() ==> new_frequency < old(self)@[pos + 1].frequency,
        ensures
            at == pos + 1,
            final(self)@ == old(self)@.insert(pos + 1, fresh(new_frequency as nat)),
            linked(old(self)@) ==> linked(final(self)@),
            pairs(final(self)@) == pairs(old(self)@),
    {
        let n: usize = self.nodes.len();
        assert(pos < n);
        self.nodes.insert(pos + 1, FrequencyNode::new(new_frequency));
        proof {
            assert(self@ =~= old(self)@.insert(pos + 1, fresh(new_frequency as nat)));
            lemma_pairs_spliced(old(self)@, pos + 1, new_frequency as nat);
            if linked(old(self)@) {
                lemma_linked_spliced(old(self)@, pos as int, new_frequency as nat);
            }
        }
        pos + 1
    }

    /// Takes the empty bucket at `pos` out of the chain.
    pub fn unlink(&mut self, pos: usize)
        requires
            1 <= pos < old(self)@.len(),
            old(self)@[pos as int].keys.len() == 0,
        ensures
            final(self)@ == old(self)@.remove(pos as int),
            linked(old(self)@) ==> linked(final(self)@),
            pairs(final(self)@) == pairs(old(self)@),
    {
        let _ = self.nodes.remove(pos);
        proof {
            assert(self@ =~= old(self)@.remove(pos as int));
            lemma_pairs_unlinked(old(self)@, pos as int);
            if linked(old(self)@) {
                lemma_linked_unlinked(old(self)@, pos as int);
            }
        }
    }

    /// The position of the bucket for `target` directly behind `pos`; the
    /// bucket is created where the successor of `pos` is not that bucket.
    pub fn successor_or_create(&mut self, pos: usize, target: u32) -> (at: usize)
        requires
            pos < old(self)@.len(),
            old(self)@[pos as int].frequency < target,
            pos + 1 < old(self)@.len() ==> target <= old(self)@[pos + 1].frequency,
        ensures
            at == pos + 1,
            final(self)@ == with_successor(old(self)@, pos as int, target as nat),
            final(self)@[pos + 1].frequency == target,
            linked(old(self)@) ==> linked(final(self)@),
            pairs(final(self)@) == pairs(old(self)@),
    {
        let n: usize = self.nodes.len();
        assert(pos < n);
        if pos + 1 < n && self.nodes[pos + 1].frequency() == target {
            pos + 1
        } else {
            self.insert_after(pos, target)
        }
    }

    /// Appends `key` to the bucket at `pos`.
    pub fn add_key(&mut self, pos: usize, key: String)
        requires
            pos < old(self)@.len(),
            !old(self)@[pos as int].keys.contains(key@),
        ensures
            final(self)@ == with_key(old(self)@, pos as int, key@),
            linked(old(self)@) && pos >= 1 ==> linked(final(self)@),
            pairs(final(self)@) == pairs(old(self)@).insert(
                (key@, old(self)@[pos as int].frequency),
            ),
    {
        self.nodes[pos].add(key);
        proof {
            assert(self@ =~= with_key(old(self)@, pos as int, key@));
            lemma_pairs_with_key(old(self)@, pos as int, key@);
            if linked(old(self)@) && pos >= 1 {
                lemma_linked_with_key(old(self)@, pos as int, key@);
            }
        }
    }

    /// Takes `key` out of the bucket at `pos` and reports whether that
    /// bucket is now empty.
    pub fn remove_key(&mut self, pos: usize, key: &String) -> (now_empty: bool)
        requires
            pos < old(self)@.len(),
            old(self)@[pos as int].keys.no_duplicates(),
        ensures
            final(self)@ == without_key(old(self)@, pos as int, key@),
            now_empty == (final(self)@[pos as int].keys.len() == 0),
            linked(old(self)@) ==> linked(final(self)@) && pairs(final(self)@) == pairs(
                old(self)@,
            ).remove((key@, old(self)@[pos as int].frequency)),
    {
        let now_empty = self.nodes[pos].remove(key);
        proof {
            assert(self@ =~= without_key(old(self)@, pos as int, key@));
            if linked(old(self)@) {
                lemma_linked_without_key(old(self)@, pos as int, key@);
                lemma_pairs_without_key(old(self)@, pos as int, key@);
            }
        }
        now_empty
    }
}

impl FrequencyList {
    /// The oldest key of the lowest bucket behind the sentinel, with that
    /// bucket's access count: no key in the list has a lower count.
    pub fn lowest(&self) -> (found: Option<(String, u32)>)
        requires
            linked(self@),
            compact(self@),
        ensures
            found.is_some() <==> self@.len() > 1,
            match found {
                Some((key, frequency)) => {
                    &&& key@ == self@[1].keys[0]
                    &&& frequency == self@[1].frequency
                    &&& holds(self@, key@, frequency as nat)
                    &&& forall|p: (Seq<char>, nat)| #[trigger] pairs(self@).contains(p) ==> frequency <= p.1
                },
                None => pairs(self@) == Set::<(Seq<char>, nat)>::empty(),
            },
    {
        let ghost list = self@;
        assert(list.len() == self.nodes@.len());
        if self.nodes.len() < 2 {
            proof {
                assert forall|p: (Seq<char>, nat)| !holds(list, p.0, p.1) by {
                    if holds(list, p.0, p.1) {
                        let b = choose|b: int|
                            0 <= b < list.len() && (#[trigger] list[b]).frequency == p.1
                                && list[b].keys.contains(p.0);
                        assert(b == 0);
                    }
                }
                assert(pairs(list) =~= Set::<(Seq<char>, nat)>::empty());
            }
            None
        } else {
            assert(list[1].keys.len() > 0);
            let key = self.nodes[1].first();
            let frequency = self.nodes[1].frequency();
            proof {
                assert(list[1].keys[0] == key@);
                assert(list[1].keys.contains(key@));
                assert forall|p: (Seq<char>, nat)| #[trigger] pairs(list).contains(p) implies frequency
                    <= p.1 by {
                    let b = choose|b: int|
                        0 <= b < list.len() && (#[trigger] list[b]).frequency == p.1
                            && list[b].keys.contains(p.0);
                    assert(b != 0);
                    if b > 1 {
                        assert(list[1].frequency < list[b].frequency);
                    }
                }
            }
            Some((key, frequency))
        }
    }

    /// Puts `key`, which the list does not hold under that count, into the
    /// bucket for `frequency`, creating the bucket where there is none.
    pub fn place(&mut self, key: String, frequency: u32)
        requires
            linked(old(self)@),
            compact(old(self)@),
            frequency >= 1,
            !holds(old(self)@, key@, frequency as nat),
        ensures
            linked(final(self)@),
            compact(final(self)@),
            pairs(final(self)@) == pairs(old(self)@).insert((key@, frequency as nat)),
    {
        let ghost l0 = self@;
        let p = self.predecessor(frequency);
        let t = self.successor_or_create(p, frequency);
        let ghost l1 = self@;
        proof {
            if l1[t as int].keys.contains(key@) {
                assert(l1 == l0);
                assert(holds(l0, key@, frequency as nat));
            }
        }
        self.add_key(t, key);
        proof {
            let l2 = self@;
            assert forall|b: int| 1 <= b < l2.len() implies (#[trigger] l2[b]).keys.len() > 0 by {
                if b != t {
                    assert(l2[b] == l1[b]);
                    if l1 == l0 {
                    } else if b < t {
                        assert(l1[b] == l0[b]);
                    } else {
                        assert(l1[b] == l0[b - 1]);
                    }
                }
            }
        }
    }

    /// Takes `key` out of the bucket for `frequency`, and the bucket out of
    /// the list where that leaves it empty.
    pub fn detach(&mut self, key: &String, frequency: u32)
        requires
            linked(old(self)@),
            compact(old(self)@),
            holds(old(self)@, key@, frequency as nat),
        ensures
            linked(final(self)@),
            compact(final(self)@),
            pairs(final(self)@) == pairs(old(self)@).remove((key@, frequency as nat)),
    {
        let ghost l0 = self@;
        let ghost w = choose|b: int|
            0 <= b < l0.len() && (#[trigger] l0[b]).frequency == frequency && l0[b].keys.contains(
                key@,
            );
        match self.find(frequency) {
            Some(b) => {
                proof {
                    lemma_bucket_unique(l0, w, b as int);
                }
                let emptied = self.remove_key(b, key);
                let ghost l1 = self@;
                if emptied {
                    self.unlink(b);
                }
                proof {
                    let l2 = self@;
                    assert forall|c: int| 1 <= c < l2.len() implies (#[trigger] l2[c]).keys.len()
                        > 0 by {
                        if emptied {
                            let c0 = if c < b { c } else { c + 1 };
                            assert(l2[c] == l1[c0]);
                            assert(l1[c0] == l0[c0]);
                        } else if c != b {
                            assert(l2[c] == l0[c]);
                        }
                    }
                }
            },
            None => {
                assert(l0[w].frequency == frequency);
            },
        }
    }

    /// Moves `key` from the bucket for `frequency` to the bucket for the
    /// next count: the successor if it has that count, else a bucket created
    /// behind the old one. An old bucket left empty is taken out of the list.
    pub fn promote(&mut self, key: &String, frequency: u32)
        requires
            linked(old(self)@),
            compact(old(self)@),
            frequency < u32::MAX,
            holds(old(self)@, key@, frequency as nat),
            !holds(old(self)@, key@, frequency as nat + 1),
        ensures
            linked(final(self)@),
            compact(final(self)@),
            pairs(final(self)@) == pairs(old(self)@).remove((key@, frequency as nat)).insert(
                (key@, frequency as nat + 1),
            ),
    {
        let ghost l0 = self@;
        let ghost w = choose|b: int|
            0 <= b < l0.len() && (#[trigger] l0[b]).frequency == frequency && l0[b].keys.contains(
                key@,
            );
        match self.find(frequency) {
            Some(b) => {
                proof {
                    lemma_bucket_unique(l0, w, b as int);
                    if b + 1 < l0.len() {
                        assert(l0[b as int].frequency < l0[b + 1].frequency);
                    }
                }
                let t = self.successor_or_create(b, frequency + 1);
                let ghost l1 = self@;
                proof {
                    assert(l1[b as int] == l0[b as int]);
                    assert(l1[t as int].frequency == frequency + 1);
                }
                let emptied = self.remove_key(b, key);
                let ghost l2 = self@;
                proof {
                    assert(l2[t as int] == l1[t as int]);
                    if l2[t as int].keys.contains(key@) {
                        assert(l1 == l0);
                        assert(l0[t as int].frequency == frequency + 1);
                        assert(holds(l0, key@, frequency as nat + 1));
                    }
                }
                self.add_key(t, key.clone());
                let ghost l3 = self@;
                assert(l3[b as int] == l2[b as int]);
                if emptied {
                    self.unlink(b);
                }
                proof {
                    let l4 = self@;
                    assert(l3[t as int].keys.len() > 0);
                    assert forall|c: int| 1 <= c < l3.len() && c != b implies (#[trigger] l3[c]).keys.len()
                        > 0 by {
                        if c != t {
                            assert(l3[c] == l1[c]);
                            if l1 == l0 {
                            } else if c < t {
                                assert(l1[c] == l0[c]);
                            } else {
                                assert(l1[c] == l0[c - 1]);
                            }
                        }
                    }
                    assert forall|c: int| 1 <= c < l4.len() implies (#[trigger] l4[c]).keys.len()
                        > 0 by {
                        if emptied {
                            let c0 = if c < b { c } else { c + 1 };
                            assert(l4[c] == l3[c0]);
                        }
                    }
                }
            },
            None => {
                assert(l0[w].frequency == frequency);
            },
        }
    }
}

/// A bucket spliced in between two counts keeps the list linked.
pub proof fn lemma_linked_spliced(list: Seq<BucketView>, pos: int, frequency: nat)
    requires
        linked(list),
        0 <= pos < list.len(),
        list[pos].frequency < frequency,
        pos + 1 < list.len() ==> frequency < list[pos + 1].frequency,
    ensures
        linked(list.insert(pos + 1, fresh(frequency))),
{
    let after = list.insert(pos + 1, fresh(frequency));
    assert forall|i: int, j: int| 0 <= i < j < after.len() implies
        (#[trigger] after[i]).frequency < (#[trigger] after[j]).frequency by {
        let i0 = if i <= pos { i } else { i - 1 };
        let j0 = if j <= pos { j } else { j - 1 };
        if i != pos + 1 {
            assert(after[i] == list[i0]);
        }
        if j != pos + 1 {
            assert(after[j] == list[j0]);
        }
        if i == pos + 1 {
            assert(list[pos + 1].frequency <= list[j0].frequency) by {
                if pos + 1 < j0 {
                    assert(list[pos + 1].frequency < list[j0].frequency);
                }
            }
        } else if j == pos + 1 {
            assert(list[i0].frequency <= list[pos].frequency) by {
                if i0 < pos {
                    assert(list[i0].frequency < list[pos].frequency);
                }
            }
        } else {
            assert(list[i0].frequency < list[j0].frequency);
        }
    }
    assert forall|b: int| 0 <= b < after.len() implies (#[trigger] after[b]).keys.no_duplicates() by {
        if b <= pos {
            assert(after[b] == list[b]);
        } else if b > pos + 1 {
            assert(after[b] == list[b - 1]);
        }
    }
    assert(after[0] == list[0]);
}

/// A bucket behind the sentinel can leave, and the list stays linked.
pub proof fn lemma_linked_unlinked(list: Seq<BucketView>, at: int)
    requires
        linked(list),
        1 <= at < list.len(),
    ensures
        linked(list.remove(at)),
{
    let after = list.remove(at);
    assert forall|i: int, j: int| 0 <= i < j < after.len() implies
        (#[trigger] after[i]).frequency < (#[trigger] after[j]).frequency by {
        let i0 = if i < at { i } else { i + 1 };
        let j0 = if j < at { j } else { j + 1 };
        assert(after[i] == list[i0]);
        assert(after[j] == list[j0]);
        assert(list[i0].frequency < list[j0].frequency);
    }
    assert forall|b: int| 0 <= b < after.len() implies (#[trigger] after[b]).keys.no_duplicates() by {
        let b0 = if b < at { b } else { b + 1 };
        assert(after[b] == list[b0]);
    }
    assert(after[0] == list[0]);
}

/// A key that joins a bucket behind the sentinel, where it was no member,
/// keeps the list linked.
pub proof fn lemma_linked_with_key(list: Seq<BucketView>, at: int, key: Seq<char>)
    requires
        linked(list),
        1 <= at < list.len(),
        !list[at].keys.contains(key),
    ensures
        linked(with_key(list, at, key)),
{
    let after = with_key(list, at, key);
    assert forall|i: int, j: int| 0 <= i < j < after.len() implies
        (#[trigger] after[i]).frequency < (#[trigger] after[j]).frequency by {
        assert(after[i].frequency == list[i].frequency);
        assert(after[j].frequency == list[j].frequency);
    }
    assert forall|b: int| 0 <= b < after.len() implies (#[trigger] after[b]).keys.no_duplicates() by {
        if b != at {
            assert(after[b] == list[b]);
        } else {
            let old_keys = list[at].keys;
            let grown = old_keys.push(key);
            assert(old_keys.no_duplicates());
            assert forall|x: int, y: int| 0 <= x < grown.len() && 0 <= y < grown.len() && x != y implies grown[x]
                != grown[y] by {
                if x < old_keys.len() && y < old_keys.len() {
                    assert(old_keys[x] != old_keys[y]);
                } else if x < old_keys.len() {
                    assert(old_keys.contains(old_keys[x]));
                } else {
                    assert(old_keys.contains(old_keys[y]));
                }
            }
        }
    }
    assert(after[0] == list[0]);
}

/// A key that leaves its bucket keeps the list linked.
pub proof fn lemma_linked_without_key(list: Seq<BucketView>, at: int, key: Seq<char>)
    requires
        linked(list),
        0 <= at < list.len(),
    ensures
        linked(without_key(list, at, key)),
{
    let after = without_key(list, at, key);
    assert(list[at].keys.no_duplicates());
    lemma_without_members(list[at].keys, key);
    assert forall|i: int, j: int| 0 <= i < j < after.len() implies
        (#[trigger] after[i]).frequency < (#[trigger] after[j]).frequency by {
        assert(after[i].frequency == list[i].frequency);
        assert(after[j].frequency == list[j].frequency);
    }
    assert forall|b: int| 0 <= b < after.len() implies (#[trigger] after[b]).keys.no_duplicates() by {
        if b != at {
            assert(after[b] == list[b]);
        }
    }
    if at == 0 {
        assert(!list[0].keys.contains(key));
        assert(after[0].keys == list[0].keys);
    } else {
        assert(after[0] == list[0]);
    }
}

/// In a linked list one bucket at most has a given access count.
pub proof fn lemma_bucket_unique(list: Seq<BucketView>, a: int, b: int)
    requires
        ordered(list),
        0 <= a < list.len(),
        0 <= b < list.len(),
        list[a].frequency == list[b].frequency,
    ensures
        a == b,
{
    if a < b {
        assert(list[a].frequency < list[b].frequency);
    } else if b < a {
        assert(list[b].frequency < list[a].frequency);
    }
}

/// A fresh bucket adds no key to the list.
pub proof fn lemma_pairs_spliced(list: Seq<BucketView>, at: int, frequency: nat)
    requires
        0 <= at <= list.len(),
    ensures
        pairs(list.insert(at, fresh(frequency))) == pairs(list),
{
    let after = list.insert(at, fresh(frequency));
    assert forall|p: (Seq<char>, nat)| holds(after, p.0, p.1) <==> holds(list, p.0, p.1) by {
        if holds(after, p.0, p.1) {
            let b = choose|b: int|
                0 <= b < after.len() && (#[trigger] after[b]).frequency == p.1
                    && after[b].keys.contains(p.0);
            if b < at {
                assert(list[b] == after[b]);
            } else {
                assert(b != at);
                assert(list[b - 1] == after[b]);
            }
        }
        if holds(list, p.0, p.1) {
            let b = choose|b: int|
                0 <= b < list.len() && (#[trigger] list[b]).frequency == p.1
                    && list[b].keys.contains(p.0);
            if b < at {
                assert(after[b] == list[b]);
            } else {
                assert(after[b + 1] == list[b]);
            }
        }
    }
    assert(pairs(after) =~= pairs(list));
}

/// An empty bucket takes no key with it when it leaves the list.
pub proof fn lemma_pairs_unlinked(list: Seq<BucketView>, at: int)
    requires
        0 <= at < list.len(),
        list[at].keys.len() == 0,
    ensures
        pairs(list.remove(at)) == pairs(list),
{
    let after = list.remove(at);
    assert forall|p: (Seq<char>, nat)| holds(after, p.0, p.1) <==> holds(list, p.0, p.1) by {
        if holds(after, p.0, p.1) {
            let b = choose|b: int|
                0 <= b < after.len() && (#[trigger] after[b]).frequency == p.1
                    && after[b].keys.contains(p.0);
            if b < at {
                assert(list[b] == after[b]);
            } else {
                assert(list[b + 1] == after[b]);
            }
        }
        if holds(list, p.0, p.1) {
            let b = choose|b: int|
                0 <= b < list.len() && (#[trigger] list[b]).frequency == p.1
                    && list[b].keys.contains(p.0);
            if b < at {
                assert(after[b] == list[b]);
            } else {
                assert(b != at);
                assert(after[b - 1] == list[b]);
            }
        }
    }
    assert(pairs(after) =~= pairs(list));
}

/// A key appended to a bucket joins the list under that bucket's count.
pub proof fn lemma_pairs_with_key(list: Seq<BucketView>, at: int, key: Seq<char>)
    requires
        0 <= at < list.len(),
    ensures
        pairs(with_key(list, at, key)) == pairs(list).insert((key, list[at].frequency)),
{
    let after = with_key(list, at, key);
    let grown = list[at].keys.push(key);
    assert(grown[list[at].keys.len() as int] == key);
    assert forall|p: (Seq<char>, nat)|
        holds(after, p.0, p.1) <==> (holds(list, p.0, p.1) || p == (key, list[at].frequency)) by {
        if holds(after, p.0, p.1) {
            let b = choose|b: int|
                0 <= b < after.len() && (#[trigger] after[b]).frequency == p.1
                    && after[b].keys.contains(p.0);
            if b != at {
                assert(list[b] == after[b]);
            } else {
                let j = choose|j: int| 0 <= j < grown.len() && grown[j] == p.0;
                if j < list[at].keys.len() {
                    assert(list[at].keys[j] == p.0);
                    assert(list[at].keys.contains(p.0));
                } else {
                    assert(p.0 == key);
                    assert(p == (key, list[at].frequency));
                }
            }
        }
        if holds(list, p.0, p.1) {
            let b = choose|b: int|
                0 <= b < list.len() && (#[trigger] list[b]).frequency == p.1
                    && list[b].keys.contains(p.0);
            if b != at {
                assert(after[b] == list[b]);
            } else {
                let j = choose|j: int| 0 <= j < list[at].keys.len() && list[at].keys[j] == p.0;
                assert(grown[j] == p.0);
                assert(after[at].keys.contains(p.0));
            }
        }
        if p == (key, list[at].frequency) {
            assert(after[at].keys.contains(key));
        }
    }
    assert(pairs(after) =~= pairs(list).insert((key, list[at].frequency)));
}

/// A key taken out of its bucket leaves the list, and nothing else does.
pub proof fn lemma_pairs_without_key(list: Seq<BucketView>, at: int, key: Seq<char>)
    requires
        0 <= at < list.len(),
        ordered(list),
        distinct(list),
    ensures
        pairs(without_key(list, at, key)) == pairs(list).remove((key, list[at].frequency)),
{
    let after = without_key(list, at, key);
    assert(list[at].keys.no_duplicates());
    lemma_without_members(list[at].keys, key);
    assert forall|p: (Seq<char>, nat)|
        holds(after, p.0, p.1) <==> (holds(list, p.0, p.1) && p != (key, list[at].frequency)) by {
        if holds(after, p.0, p.1) {
            let b = choose|b: int|
                0 <= b < after.len() && (#[trigger] after[b]).frequency == p.1
                    && after[b].keys.contains(p.0);
            if b != at {
                assert(list[b] == after[b]);
                assert(list[b].frequency != list[at].frequency);
            } else {
                assert(list[at].keys.contains(p.0));
            }
        }
        if holds(list, p.0, p.1) && p != (key, list[at].frequency) {
            let b = choose|b: int|
                0 <= b < list.len() && (#[trigger] list[b]).frequency == p.1
                    && list[b].keys.contains(p.0);
            if b != at {
                assert(after[b] == list[b]);
            } else {
                assert(after[at].keys.contains(p.0));
            }
        }
    }
    assert(pairs(after) =~= pairs(list).remove((key, list[at].frequency)));
}

} // verus!
