//! A table of distinct text keys, each at a place of its own, with the
//! place of a key found through a hash of the key.

use crate::hashing::digest;
use crate::text::str_eq;
use std::collections::hash_map::DefaultHasher;
use std::collections::HashMap;
use std::hash::Hasher;
use vstd::prelude::*;
use vstd::std_specs::hash::*;
use vstd::utf8::*;

verus! {

/// The hash under which a key is filed.
pub open spec fn key_hash(key: Seq<char>) -> u64 {
    digest(seq![encode_utf8(key)])
}

fn hash_key(key: &str) -> (h: u64)
    ensures
        h == key_hash(key@),
{
    let mut hasher = DefaultHasher::new();
    hasher.write(key.as_bytes());
    assert(hasher@ =~= seq![encode_utf8(key@)]);
    hasher.finish()
}

/// The texts of a list of keys.
pub open spec fn key_views(keys: Seq<String>) -> Seq<Seq<char>> {
    Seq::new(keys.len(), |i: int| keys[i]@)
}

/// Distinct keys by place.
pub struct KeyTable {
    keys: Vec<String>,
    slots: HashMap<u64, Vec<usize>>,
}

impl View for KeyTable {
    type V = Seq<Seq<char>>;

    /// The key at each place.
    closed spec fn view(&self) -> Seq<Seq<char>> {
        key_views(self.keys@)
    }
}

impl KeyTable {
    /// No key occurs twice, and every place is filed under the hash of its
    /// key.
    pub closed spec fn wf(&self) -> bool {
        &&& forall|i: int, j: int|
            0 <= i < j < self.keys@.len() ==> (#[trigger] self.keys@[i])@ != (
            #[trigger] self.keys@[j])@
        &&& forall|i: int|
            0 <= i < self.keys@.len() ==> self.slots@.contains_key(
                key_hash((#[trigger] self.keys@[i])@),
            ) && self.slots@[key_hash(self.keys@[i]@)]@.contains(i as usize)
        &&& forall|h: u64, j: int|
            self.slots@.contains_key(h) && 0 <= j < self.slots@[h]@.len() ==> (
            #[trigger] self.slots@[h]@[j]) < self.keys@.len()
    }

    /// The keys of a well-formed table are distinct.
    pub proof fn lemma_distinct(self)
        requires
            self.wf(),
        ensures
            forall|i: int, j: int|
                0 <= i < j < self@.len() ==> (#[trigger] self@[i]) != (#[trigger] self@[j]),
    {
        assert forall|i: int, j: int| 0 <= i < j < self@.len() implies (#[trigger] self@[i]) != (
        #[trigger] self@[j]) by {
            assert(self.keys@[i]@ != self.keys@[j]@);
        }
    }

    /// A table without keys.
    pub fn new() -> (r: Self)
        ensures
            r.wf(),
            r@ == Seq::<Seq<char>>::empty(),
    {
        let r = KeyTable { keys: Vec::new(), slots: HashMap::new() };
        assert(r@ =~= Seq::<Seq<char>>::empty());
        r
    }

    /// The number of keys.
    pub fn len(&self) -> (n: usize)
        ensures
            n == self@.len(),
    {
        self.keys.len()
    }

    /// The place of `key`.
    pub fn find(&self, key: &str) -> (r: Option<usize>)
        requires
            self.wf(),
        ensures
            match r {
                Some(i) => i < self@.len() && self@[i as int] == key@,
                None => forall|i: int| 0 <= i < self@.len() ==> self@[i] != key@,
            },
    {
        let h = hash_key(key);
        match self.slots.get(&h) {
            None => {
                assert forall|i: int| 0 <= i < self@.len() implies self@[i] != key@ by {
                    if self.keys@[i]@ == key@ {
                        assert(self.slots@.contains_key(key_hash(self.keys@[i]@)));
                    }
                }
                None
            },
            Some(bucket) => {
                let mut j: usize = 0;
                while j < bucket.len()
                    invariant
                        j <= bucket@.len(),
                        self.wf(),
                        self.slots@.contains_key(h),
                        *bucket == self.slots@[h],
                        forall|k: int|
                            0 <= k < j ==> self.keys@[(#[trigger] bucket@[k]) as int]@ != key@,
                    decreases bucket@.len() - j,
                {
                    let p: usize = bucket[j];
                    assert(self.slots@[h]@[j as int] < self.keys@.len());
                    if str_eq(self.keys[p].as_str(), key) {
                        return Some(p);
                    }
                    j = j + 1;
                }
                assert forall|i: int| 0 <= i < self@.len() implies self@[i] != key@ by {
                    assert(self@[i] == self.keys@[i]@);
                    if self.keys@[i]@ == key@ {
                        assert(i < self.keys.len());
                        assert(key_hash(self.keys@[i]@) == h);
                        assert(bucket@.contains(i as usize));
                        let k = choose|k: int| 0 <= k < bucket@.len() && bucket@[k] == i as usize;
                        assert(bucket@[k] as int == i);
                        assert(self.keys@[bucket@[k] as int]@ != key@);
                    }
                }
                None
            },
        }
    }

    /// Gives `key`, which the table does not hold, the next place.
    pub fn push(&mut self, key: String)
        requires
            old(self).wf(),
            forall|i: int| 0 <= i < old(self)@.len() ==> old(self)@[i] != key@,
        ensures
            final(self).wf(),
            final(self)@ == old(self)@.push(key@),
    {
        let h = hash_key(key.as_str());
        let place: usize = self.keys.len();
        let mut bucket: Vec<usize> = match self.slots.remove(&h) {
            Some(b) => b,
            None => Vec::new(),
        };
        let ghost before = bucket@;
        bucket.push(place);
        self.slots.insert(h, bucket);
        self.keys.push(key);
        proof {
            assert(self@ =~= old(self)@.push(key@));
            assert forall|i: int, j: int| 0 <= i < j < self.keys@.len() implies (
            #[trigger] self.keys@[i])@ != (#[trigger] self.keys@[j])@ by {
                if j == place {
                    assert(old(self)@[i] == old(self).keys@[i]@);
                } else {
                    assert(old(self).keys@[i]@ != old(self).keys@[j]@);
                }
            }
            assert forall|i: int| 0 <= i < self.keys@.len() implies self.slots@.contains_key(
                key_hash((#[trigger] self.keys@[i])@),
            ) && self.slots@[key_hash(self.keys@[i]@)]@.contains(i as usize) by {
                let hi = key_hash(self.keys@[i]@);
                if i == place {
                    assert(self.slots@[h]@[before.len() as int] == place);
                } else {
                    assert(old(self).slots@.contains_key(hi) && old(self).slots@[hi]@.contains(
                        i as usize,
                    ));
                    if hi == h {
                        let k = choose|k: int| 0 <= k < before.len() && before[k] == i as usize;
                        assert(self.slots@[h]@[k] == i as usize);
                    }
                }
            }
            assert forall|g: u64, j: int|
                self.slots@.contains_key(g) && 0 <= j < self.slots@[g]@.len() implies (
            #[trigger] self.slots@[g]@[j]) < self.keys@.len() by {
                if g == h {
                    if j < before.len() {
                        assert(old(self).slots@[h]@[j] < old(self).keys@.len());
                    }
                } else {
                    assert(old(self).slots@[g]@[j] < old(self).keys@.len());
                }
            }
        }
    }

    /// Takes every key out.
    pub fn clear(&mut self)
        ensures
            final(self).wf(),
            final(self)@ == Seq::<Seq<char>>::empty(),
    {
        self.keys.clear();
        self.slots.clear();
        assert(self@ =~= Seq::<Seq<char>>::empty());
    }
}

} // verus!
