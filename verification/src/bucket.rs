//! A frequency bucket: the keys that have been accessed equally often.

use vstd::prelude::*;

verus! {

/// The mathematical content of a bucket: its access count and its keys,
/// oldest member first.
pub struct BucketView {
    pub frequency: nat,
    pub keys: Seq<Seq<char>>,
}

/// A node of the frequency list. All keys in it share the access count
/// `value`.
#[derive(Debug)]
pub struct FrequencyNode {
    pub value: u32,
    items: Vec<String>,
}

impl View for FrequencyNode {
    type V = BucketView;

    closed spec fn view(&self) -> BucketView {
        BucketView {
            frequency: self.value as nat,
            keys: Seq::new(self.items@.len(), |i: int| self.items@[i]@),
        }
    }
}

impl FrequencyNode {
    /// No key occurs twice in the bucket.
    pub open spec fn wf(&self) -> bool {
        self@.keys.no_duplicates()
    }

    /// An empty bucket for the access count `value`.
    pub fn new(value: u32) -> (node: Self)
        ensures
            node@ == (BucketView { frequency: value as nat, keys: Seq::empty() }),
            node.wf(),
    {
        let node = FrequencyNode { value, items: Vec::new() };
        assert(node@.keys =~= Seq::empty());
        node
    }

    /// The bucket's access count.
    pub fn frequency(&self) -> (f: u32)
        ensures
            f == self@.frequency,
    {
        self.value
    }

    /// How many keys the bucket holds.
    pub fn len(&self) -> (n: usize)
        ensures
            n == self@.keys.len(),
    {
        self.items.len()
    }

    /// The key that has been in the bucket longest.
    pub fn first(&self) -> (key: String)
        requires
            self@.keys.len() > 0,
        ensures
            key@ == self@.keys[0],
    {
        self.items[0].clone()
    }

    /// The keys of the bucket, oldest member first.
    pub fn keys(&self) -> (keys: Vec<String>)
        ensures
            keys@.len() == self@.keys.len(),
            forall|i: int| 0 <= i < keys@.len() ==> (#[trigger] keys@[i])@ == self@.keys[i],
    {
        let mut keys: Vec<String> = Vec::new();
        let mut i: usize = 0;
        while i < self.items.len()
            invariant
                i <= self.items@.len(),
                keys@.len() == i,
                self@.keys.len() == self.items@.len(),
                forall|j: int| 0 <= j < i ==> (#[trigger] keys@[j])@ == self@.keys[j],
            decreases self.items.len() - i,
        {
            keys.push(self.items[i].clone());
            i += 1;
        }
        keys
    }

    /// Where `key` stands in the bucket, if it is a member.
    pub fn position(&self, key: &String) -> (at: Option<usize>)
        ensures
            match at {
                Some(i) => i < self@.keys.len() && self@.keys[i as int] == key@,
                None => !self@.keys.contains(key@),
            },
    {
        let mut i: usize = 0;
        while i < self.items.len()
            invariant
                i <= self.items.len(),
                forall|j: int| 0 <= j < i ==> self@.keys[j] != key@,
            decreases self.items.len() - i,
        {
            if self.items[i] == *key {
                return Some(i);
            }
            i += 1;
        }
        None
    }

    /// Adds `key` as the newest member.
    pub fn add(&mut self, key: String)
        requires
            !old(self)@.keys.contains(key@),
        ensures
            final(self)@ == (BucketView {
                frequency: old(self)@.frequency,
                keys: old(self)@.keys.push(key@),
            }),
            old(self).wf() ==> final(self).wf(),
    {
        self.items.push(key);
        proof {
            let before = old(self)@.keys;
            let after = before.push(key@);
            assert(self@.keys =~= after);
            if before.no_duplicates() {
                assert forall|x: int, y: int|
                    0 <= x < after.len() && 0 <= y < after.len() && x != y implies after[x]
                    != after[y] by {
                    if x < before.len() && y < before.len() {
                        assert(before[x] != before[y]);
                    } else if x < before.len() {
                        assert(before.contains(before[x]));
                    } else {
                        assert(before.contains(before[y]));
                    }
                }
            }
        }
    }

    /// Takes `key` out of the bucket, leaving the others in their order, and
    /// reports whether the bucket is now empty. A key that is not a member
    /// changes nothing.
    pub fn remove(&mut self, key: &String) -> (now_empty: bool)
        requires
            old(self).wf(),
        ensures
            final(self)@ == (BucketView {
                frequency: old(self)@.frequency,
                keys: without(old(self)@.keys, key@),
            }),
            now_empty == (final(self)@.keys.len() == 0),
            final(self).wf(),
    {
        proof {
            lemma_without_members(self@.keys, key@);
        }
        match self.position(key) {
            Some(i) => {
                let _ = self.items.remove(i);
                proof {
                    let ks = old(self)@.keys;
                    assert(ks.contains(key@));
                    assert(ks.index_of(key@) == i);
                    assert(self@.keys =~= ks.remove(i as int));
                }
            },
            None => {},
        }
        self.items.len() == 0
    }
}

/// `keys` with `key` taken out, where it is a member.
pub open spec fn without(keys: Seq<Seq<char>>, key: Seq<char>) -> Seq<Seq<char>> {
    if keys.contains(key) {
        keys.remove(keys.index_of(key))
    } else {
        keys
    }
}

/// Taking a key out of a duplicate-free sequence removes exactly that key.
pub proof fn lemma_without_members(keys: Seq<Seq<char>>, key: Seq<char>)
    requires
        keys.no_duplicates(),
    ensures
        without(keys, key).no_duplicates(),
        forall|x: Seq<char>| without(keys, key).contains(x) <==> (keys.contains(x) && x != key),
{
    if keys.contains(key) {
        let i = keys.index_of(key);
        let rest = keys.remove(i);
        assert forall|x: Seq<char>| rest.contains(x) <==> (keys.contains(x) && x != key) by {
            if rest.contains(x) {
                let j = choose|j: int| 0 <= j < rest.len() && rest[j] == x;
                if j < i {
                    assert(keys[j] == x);
                } else {
                    assert(keys[j + 1] == x);
                }
            }
            if keys.contains(x) && x != key {
                let j = choose|j: int| 0 <= j < keys.len() && keys[j] == x;
                if j < i {
                    assert(rest[j] == x);
                } else {
                    assert(rest[j - 1] == x);
                }
            }
        }
        assert forall|a: int, b: int| 0 <= a < rest.len() && 0 <= b < rest.len() && a != b implies rest[a]
            != rest[b] by {
            let a0 = if a < i { a } else { a + 1 };
            let b0 = if b < i { b } else { b + 1 };
            assert(rest[a] == keys[a0] && rest[b] == keys[b0]);
        }
    }
}

} // verus!
