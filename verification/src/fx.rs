//! Hash maps on top of the Fx hashing of the `rustc_hash` crate.
//!
//! [`FxMap`] maps keys of any type that can list the words of its value: it files an
//! entry under the hash of those words and tells apart keys that share a hash.

use rustc_hash::{FxBuildHasher, FxHashMap, FxHasher};
use std::hash::Hasher;
use vstd::prelude::*;

verus! {

/// `rustc_hash::FxBuildHasher`, the hasher parameter of `FxHashMap`.
#[verifier::external_type_specification]
#[verifier::external_body]
pub struct ExFxBuildHasher(FxBuildHasher);

/// The state of an Fx hasher of 64 bits after one more word.
pub open spec fn fx_add_64(state: int, word: int) -> int {
    (state + word) * 0xf1357aea2e62a9c5 % 0x1_0000_0000_0000_0000
}

/// The state of an Fx hasher of 32 bits after one more word of 64 bits: it takes the low half
/// and then the high half.
pub open spec fn fx_add_32(state: int, word: int) -> int {
    let low = (state + word % 0x1_0000_0000) * 0x93d765dd % 0x1_0000_0000;
    (low + word / 0x1_0000_0000) * 0x93d765dd % 0x1_0000_0000
}

/// A number below `range` with its bits moved up, times `factor`, and around.
pub open spec fn rotated(value: int, factor: int, range: int) -> int {
    value * factor % range + value * factor / range
}

/// The Fx hash of two words. Its state has as many bits as a pointer, and is rotated by 26
/// bits of 64, or by 15 bits of 32.
#[verifier::opaque]
pub open spec fn fx_hash_pair(first: u64, second: u64) -> u64 {
    if usize::BITS == 64 {
        let state = fx_add_64(fx_add_64(0, first as int), second as int);
        rotated(state, 0x400_0000, 0x1_0000_0000_0000_0000) as u64
    } else {
        let state = fx_add_32(fx_add_32(0, first as int), second as int);
        rotated(state, 0x8000, 0x1_0000_0000) as u64
    }
}

/// Calls `rustc_hash::FxHasher`: what a fresh hasher finishes with that is given `first` and
/// then `second`.
#[verifier::external_body]
fn hash_pair(first: u64, second: u64) -> (hash: u64)
    ensures
        hash == fx_hash_pair(first, second),
{
    let mut hasher = FxHasher::default();
    hasher.write_u64(first);
    hasher.write_u64(second);
    hasher.finish()
}

/// Calls `rustc_hash::FxHashMap::default`: the new map is empty.
#[verifier::external_body]
pub(crate) fn fx_new<V>() -> (created: FxHashMap<u64, V>)
    ensures
        created@.dom() == Set::<u64>::empty(),
{
    FxHashMap::default()
}

/// Calls `get` of `rustc_hash::FxHashMap`: the value stored under `key`, if there is one.
#[verifier::external_body]
pub(crate) fn fx_get<'a, V>(map: &'a FxHashMap<u64, V>, key: u64) -> (value: Option<&'a V>)
    ensures
        match value {
            Some(value) => map@.contains_key(key) && *value == map@[key],
            None => !map@.contains_key(key),
        },
{
    map.get(&key)
}

/// Calls `insert` of `rustc_hash::FxHashMap`: `value` is stored under `key`, in place of
/// what was there.
#[verifier::external_body]
pub(crate) fn fx_insert<V>(map: &mut FxHashMap<u64, V>, key: u64, value: V)
    ensures
        final(map)@ == old(map)@.insert(key, value),
{
    map.insert(key, value);
}

/// Calls `remove` of `rustc_hash::FxHashMap`: the entry of `key` leaves the map and its
/// value is handed out, if there was one.
#[verifier::external_body]
pub(crate) fn fx_remove<V>(map: &mut FxHashMap<u64, V>, key: u64) -> (value: Option<V>)
    ensures
        final(map)@ == old(map)@.remove(key),
        match value {
            Some(value) => old(map)@.contains_key(key) && value == old(map)@[key],
            None => !old(map)@.contains_key(key),
        },
{
    map.remove(&key)
}

/// The hash of a sequence of words: each word is hashed together with the hash of the
/// words before it.
pub open spec fn words_hash(words: Seq<u64>) -> u64
    decreases words.len(),
{
    if words.len() == 0 {
        0
    } else {
        fx_hash_pair(words_hash(words.drop_last()), words.last())
    }
}

/// Hashes a sequence of words.
pub fn hash_words(words: &Vec<u64>) -> (hash: u64)
    ensures
        hash == words_hash(words@),
{
    let mut hash: u64 = 0;
    let mut next: usize = 0;
    while next < words.len()
        invariant
            next <= words@.len(),
            hash == words_hash(words@.take(next as int)),
        decreases words@.len() - next,
    {
        assert(words@.take(next + 1).drop_last() =~= words@.take(next as int));
        hash = hash_pair(hash, words[next]);
        next = next + 1;
    }
    assert(words@.take(next as int) =~= words@);
    hash
}

/// A key of an [`FxMap`].
pub trait FxKey: Sized {
    /// What two keys have in common exactly when they are equal.
    type Model;

    /// The value of the key.
    spec fn model(&self) -> Self::Model;

    /// The words that stand for a value when it is hashed.
    spec fn words(model: Self::Model) -> Seq<u64>;

    fn same(&self, other: &Self) -> (result: bool)
        ensures
            result == (self.model() == other.model()),
    ;

    fn duplicate(&self) -> (result: Self)
        ensures
            result.model() == self.model(),
    ;

    fn to_words(&self) -> (words: Vec<u64>)
        ensures
            words@ == Self::words(self.model()),
    ;
}

/// The bucket that a value belongs in.
pub open spec fn bucket_of<K: FxKey>(model: K::Model) -> u64 {
    words_hash(K::words(model))
}

/// Whether a bucket has an entry for a value.
pub open spec fn files<K: FxKey, V>(bucket: Seq<(K, V)>, model: K::Model) -> bool {
    exists|i: int| 0 <= i < bucket.len() && (#[trigger] bucket[i]).0.model() == model
}

/// Where in a bucket the entry for a value is.
pub open spec fn slot_of<K: FxKey, V>(bucket: Seq<(K, V)>, model: K::Model) -> int {
    choose|i: int| 0 <= i < bucket.len() && (#[trigger] bucket[i]).0.model() == model
}

/// A map from the values of keys, kept in buckets of an `FxHashMap`.
#[verifier::reject_recursive_types(K)]
#[verifier::reject_recursive_types(V)]
pub struct FxMap<K: FxKey, V> {
    buckets: FxHashMap<u64, Vec<(K, V)>>,
    hashes: Vec<u64>,
}

impl<K: FxKey, V> FxMap<K, V> {
    /// Every entry is in the bucket of its key, no key has two entries, no bucket is
    /// empty, and `hashes` lists the buckets.
    pub closed spec fn wf(&self) -> bool {
        &&& self.hashes@.no_duplicates()
        &&& forall|hash: u64| #[trigger]
            self.hashes@.contains(hash) <==> self.buckets@.contains_key(hash)
        &&& forall|hash: u64| #[trigger]
            self.buckets@.contains_key(hash) ==> Self::bucket_wf(self.buckets@[hash]@, hash)
    }

    closed spec fn bucket_wf(bucket: Seq<(K, V)>, hash: u64) -> bool {
        &&& bucket.len() > 0
        &&& forall|i: int|
            0 <= i < bucket.len() ==> bucket_of::<K>((#[trigger] bucket[i]).0.model()) == hash
        &&& forall|i: int, j: int|
            0 <= i < j < bucket.len() ==> (#[trigger] bucket[i]).0.model() != (
            #[trigger] bucket[j]).0.model()
    }

    pub closed spec fn view(&self) -> Map<K::Model, V> {
        Map::new(
            |model: K::Model|
                self.buckets@.contains_key(bucket_of::<K>(model)) && files(
                    self.buckets@[bucket_of::<K>(model)]@,
                    model,
                ),
            |model: K::Model|
                {
                    let bucket = self.buckets@[bucket_of::<K>(model)]@;
                    bucket[slot_of(bucket, model)].1
                },
        )
    }

    proof fn lemma_entry(&self, hash: u64, i: int)
        requires
            self.wf(),
            self.buckets@.contains_key(hash),
            0 <= i < self.buckets@[hash]@.len(),
        ensures
            self.view().contains_key(self.buckets@[hash]@[i].0.model()),
            self.view()[self.buckets@[hash]@[i].0.model()] == self.buckets@[hash]@[i].1,
    {
        let bucket = self.buckets@[hash]@;
        let model = bucket[i].0.model();
        assert(Self::bucket_wf(bucket, hash));
        assert(bucket_of::<K>(model) == hash);
        assert(files(bucket, model));
        let slot = slot_of(bucket, model);
        assert(bucket[slot].0.model() == model);
        assert(slot == i);
    }

    pub fn new() -> (map: Self)
        ensures
            map.wf(),
            map@ == Map::<K::Model, V>::empty(),
    {
        let map = FxMap { buckets: fx_new(), hashes: Vec::new() };
        assert(map.view() =~= Map::<K::Model, V>::empty());
        map
    }

    fn hash_of(key: &K) -> (hash: u64)
        ensures
            hash == bucket_of::<K>(key.model()),
    {
        hash_words(&key.to_words())
    }

    fn position(bucket: &Vec<(K, V)>, key: &K) -> (position: Option<usize>)
        ensures
            match position {
                Some(position) => position < bucket@.len() && bucket@[position as int].0.model()
                    == key.model(),
                None => !files(bucket@, key.model()),
            },
    {
        let mut next: usize = 0;
        while next < bucket.len()
            invariant
                next <= bucket@.len(),
                forall|i: int| 0 <= i < next ==> (#[trigger] bucket@[i]).0.model() != key.model(),
            decreases bucket@.len() - next,
        {
            if bucket[next].0.same(key) {
                return Some(next);
            }
            next = next + 1;
        }
        None
    }

    pub fn get(&self, key: &K) -> (value: Option<&V>)
        requires
            self.wf(),
        ensures
            match value {
                Some(value) => self@.contains_key(key.model()) && *value == self@[key.model()],
                None => !self@.contains_key(key.model()),
            },
    {
        let hash = Self::hash_of(key);
        match fx_get(&self.buckets, hash) {
            Some(bucket) => match Self::position(bucket, key) {
                Some(position) => {
                    proof {
                        self.lemma_entry(hash, position as int);
                    }
                    Some(&bucket[position].1)
                },
                None => None,
            },
            None => None,
        }
    }

    pub fn contains_key(&self, key: &K) -> (result: bool)
        requires
            self.wf(),
        ensures
            result == self@.contains_key(key.model()),
    {
        self.get(key).is_some()
    }

    /// Whether the map has no entry.
    pub fn is_empty(&self) -> (result: bool)
        requires
            self.wf(),
        ensures
            result == (self@ == Map::<K::Model, V>::empty()),
    {
        proof {
            if self.hashes@.len() > 0 {
                let hash = self.hashes@[0];
                assert(self.hashes@.contains(hash));
                assert(self.buckets@.contains_key(hash));
                assert(Self::bucket_wf(self.buckets@[hash]@, hash));
                self.lemma_entry(hash, 0);
            } else {
                assert forall|model: K::Model| !self.view().contains_key(model) by {
                    if self.view().contains_key(model) {
                        assert(self.hashes@.contains(bucket_of::<K>(model)));
                    }
                }
                assert(self.view() =~= Map::<K::Model, V>::empty());
            }
        }
        self.hashes.len() == 0
    }

    /// Stores `value` under `key`, in place of what was there.
    pub fn insert(&mut self, key: K, value: V)
        requires
            old(self).wf(),
        ensures
            final(self).wf(),
            final(self)@ == old(self)@.insert(key.model(), value),
    {
        let hash = Self::hash_of(&key);
        let ghost model = key.model();
        let ghost before = *self;
        match fx_remove(&mut self.buckets, hash) {
            Some(mut bucket) => {
                let ghost old_bucket = bucket@;
                assert(Self::bucket_wf(old_bucket, hash));
                match Self::position(&bucket, &key) {
                    Some(position) => {
                        bucket[position] = (key, value);
                        let ghost at = position as int;
                        assert(bucket@ == old_bucket.update(at, (key, value)));
                        assert forall|i: int, j: int|
                            0 <= i < j < bucket@.len() implies (#[trigger] bucket@[i]).0.model()
                            != (#[trigger] bucket@[j]).0.model() by {
                            assert(old_bucket[i].0.model() != old_bucket[j].0.model());
                        }
                        assert forall|i: int|
                            0 <= i < bucket@.len() implies bucket_of::<K>(
                            (#[trigger] bucket@[i]).0.model(),
                        ) == hash by {
                            assert(bucket_of::<K>(old_bucket[i].0.model()) == hash);
                        }
                        assert(Self::refiled(old_bucket, bucket@, model, value, at));
                    },
                    None => {
                        bucket.push((key, value));
                        assert(bucket@ == old_bucket.push((key, value)));
                        assert forall|i: int, j: int|
                            0 <= i < j < bucket@.len() implies (#[trigger] bucket@[i]).0.model()
                            != (#[trigger] bucket@[j]).0.model() by {
                            if j < old_bucket.len() {
                                assert(old_bucket[i].0.model() != old_bucket[j].0.model());
                            } else {
                                assert(old_bucket[i].0.model() != model);
                            }
                        }
                        assert forall|i: int|
                            0 <= i < bucket@.len() implies bucket_of::<K>(
                            (#[trigger] bucket@[i]).0.model(),
                        ) == hash by {
                            if i < old_bucket.len() {
                                assert(bucket_of::<K>(old_bucket[i].0.model()) == hash);
                            }
                        }
                        assert(Self::refiled(
                            old_bucket,
                            bucket@,
                            model,
                            value,
                            old_bucket.len() as int,
                        ));
                    },
                }
                assert(Self::bucket_wf(bucket@, hash));
                let ghost new_bucket = bucket@;
                fx_insert(&mut self.buckets, hash, bucket);
                proof {
                    let at = choose|at: int|
                        Self::refiled(old_bucket, new_bucket, model, value, at);
                    assert(Self::refiled(old_bucket, new_bucket, model, value, at));
                    assert(self.buckets@ =~= before.buckets@.insert(hash, self.buckets@[hash]));
                    before.lemma_replaced(*self, hash, model, value, at);
                }
            },
            None => {
                let mut bucket: Vec<(K, V)> = Vec::new();
                bucket.push((key, value));
                assert(Self::bucket_wf(bucket@, hash));
                fx_insert(&mut self.buckets, hash, bucket);
                self.hashes.push(hash);
                proof {
                    assert(!before.hashes@.contains(hash));
                    assert(self.hashes@ == before.hashes@.push(hash));
                    assert forall|h: u64| #[trigger]
                        self.hashes@.contains(h) <==> self.buckets@.contains_key(h) by {
                        if before.hashes@.contains(h) {
                            let i = choose|i: int|
                                0 <= i < before.hashes@.len() && before.hashes@[i] == h;
                            assert(self.hashes@[i] == h);
                        }
                        assert(self.hashes@[before.hashes@.len() as int] == hash);
                    }
                    assert(self.buckets@ =~= before.buckets@.insert(hash, self.buckets@[hash]));
                    before.lemma_replaced(*self, hash, model, value, 0);
                }
            },
        }
    }

    closed spec fn bucket_at(&self, hash: u64) -> Seq<(K, V)> {
        if self.buckets@.contains_key(hash) {
            self.buckets@[hash]@
        } else {
            Seq::empty()
        }
    }

    /// `new_bucket` is `old_bucket` but for position `at`, which files `value` under
    /// `model`.
    closed spec fn refiled(
        old_bucket: Seq<(K, V)>,
        new_bucket: Seq<(K, V)>,
        model: K::Model,
        value: V,
        at: int,
    ) -> bool {
        &&& 0 <= at < new_bucket.len()
        &&& at < old_bucket.len() ==> new_bucket.len() == old_bucket.len()
            && old_bucket[at].0.model() == model
        &&& at >= old_bucket.len() ==> at == old_bucket.len() && new_bucket.len()
            == old_bucket.len() + 1 && !files(old_bucket, model)
        &&& new_bucket[at].0.model() == model
        &&& new_bucket[at].1 == value
        &&& forall|i: int|
            0 <= i < old_bucket.len() && i != at ==> new_bucket[i] == old_bucket[i]
    }

    /// Replacing the bucket of `model` by one that differs only in that it files `value`
    /// under `model` inserts that entry into the map.
    proof fn lemma_replaced(&self, after: Self, hash: u64, model: K::Model, value: V, at: int)
        requires
            self.wf(),
            hash == bucket_of::<K>(model),
            after.buckets@.contains_key(hash),
            after.buckets@ == self.buckets@.insert(hash, after.buckets@[hash]),
            after.hashes@.no_duplicates(),
            forall|h: u64| #[trigger]
                after.hashes@.contains(h) <==> after.buckets@.contains_key(h),
            Self::bucket_wf(after.buckets@[hash]@, hash),
            Self::refiled(self.bucket_at(hash), after.buckets@[hash]@, model, value, at),
        ensures
            after.wf(),
            after.view() == self.view().insert(model, value),
    {
        let old_bucket = self.bucket_at(hash);
        let new_bucket = after.buckets@[hash]@;
        assert forall|h: u64| #[trigger] after.buckets@.contains_key(h) implies Self::bucket_wf(
            after.buckets@[h]@,
            h,
        ) by {
            if h != hash {
                assert(self.buckets@.contains_key(h));
            }
        }
        assert(after.wf());
        let inserted = self.view().insert(model, value);
        assert forall|m: K::Model|
            #![auto]
            after.view().contains_key(m) == inserted.contains_key(m) && (
            after.view().contains_key(m) ==> after.view()[m] == inserted[m]) by {
            if m == model {
                after.lemma_entry(hash, at);
            } else if bucket_of::<K>(m) == hash {
                if after.view().contains_key(m) {
                    let i = slot_of(new_bucket, m);
                    assert(new_bucket[i].0.model() == m);
                    assert(i != at);
                    assert(old_bucket[i] == new_bucket[i]);
                    after.lemma_entry(hash, i);
                    self.lemma_entry(hash, i);
                }
                if self.view().contains_key(m) {
                    let i = slot_of(old_bucket, m);
                    assert(old_bucket[i].0.model() == m);
                    assert(i != at);
                    assert(old_bucket[i] == new_bucket[i]);
                    after.lemma_entry(hash, i);
                    self.lemma_entry(hash, i);
                }
            } else {
                assert(after.buckets@.contains_key(bucket_of::<K>(m)) == self.buckets@.contains_key(
                    bucket_of::<K>(m),
                ));
            }
        }
        assert(after.view() =~= inserted);
    }

    /// Takes the entry of `key` out of the map and hands its value out.
    pub fn remove(&mut self, key: &K) -> (value: Option<V>)
        requires
            old(self).wf(),
        ensures
            final(self).wf(),
            final(self)@ == old(self)@.remove(key.model()),
            match value {
                Some(value) => old(self)@.contains_key(key.model()) && value
                    == old(self)@[key.model()],
                None => !old(self)@.contains_key(key.model()),
            },
    {
        let hash = Self::hash_of(key);
        let ghost model = key.model();
        let ghost before = *self;
        let mut bucket = match fx_remove(&mut self.buckets, hash) {
            Some(bucket) => bucket,
            None => {
                assert(self.buckets@ =~= before.buckets@);
                assert(before.view() =~= before.view().remove(model));
                return None;
            },
        };
        let ghost old_bucket = bucket@;
        assert(Self::bucket_wf(old_bucket, hash));
        let position = match Self::position(&bucket, key) {
            Some(position) => position,
            None => {
                fx_insert(&mut self.buckets, hash, bucket);
                assert(self.buckets@ =~= before.buckets@);
                assert(before.view() =~= before.view().remove(model));
                return None;
            },
        };
        let ghost at = position as int;
        proof {
            before.lemma_entry(hash, at);
        }
        let entry = bucket.swap_remove(position);
        let ghost new_bucket = bucket@;
        if bucket.len() == 0 {
            let mut next: usize = 0;
            while next < self.hashes.len() && self.hashes[next] != hash
                invariant
                    next <= self.hashes@.len(),
                    forall|i: int| 0 <= i < next ==> self.hashes@[i] != hash,
                decreases self.hashes@.len() - next,
            {
                next = next + 1;
            }
            proof {
                assert(before.hashes@.contains(hash));
                let i = choose|i: int| 0 <= i < before.hashes@.len() && before.hashes@[i] == hash;
                assert(self.hashes@[i] == hash);
            }
            self.hashes.swap_remove(next);
            proof {
                let old_hashes = before.hashes@;
                let last = old_hashes.len() - 1;
                assert(self.hashes@ == old_hashes.update(next as int, old_hashes.last()).drop_last());
                assert forall|h: u64| #[trigger]
                    self.hashes@.contains(h) <==> self.buckets@.contains_key(h) by {
                    if self.hashes@.contains(h) {
                        let i = choose|i: int| 0 <= i < self.hashes@.len() && self.hashes@[i] == h;
                        assert(old_hashes.contains(if i == next { old_hashes[last] } else { old_hashes[i] }));
                        assert(h != hash);
                    }
                    if self.buckets@.contains_key(h) {
                        assert(old_hashes.contains(h));
                        let i = choose|i: int| 0 <= i < old_hashes.len() && old_hashes[i] == h;
                        if i == last {
                            assert(self.hashes@[next as int] == h);
                        } else {
                            assert(self.hashes@[i] == h);
                        }
                    }
                }
                assert(self.hashes@.no_duplicates());
                before.lemma_shrunk(*self, hash, model, at, new_bucket);
            }
        } else {
            proof {
                before.lemma_shrunk_bucket(hash, at, new_bucket);
            }
            fx_insert(&mut self.buckets, hash, bucket);
            proof {
                assert(self.buckets@ =~= before.buckets@.insert(hash, self.buckets@[hash]));
                assert forall|h: u64| #[trigger]
                    self.hashes@.contains(h) <==> self.buckets@.contains_key(h) by {
                    assert(before.hashes@.contains(h) <==> before.buckets@.contains_key(h));
                }
                before.lemma_shrunk(*self, hash, model, at, new_bucket);
            }
        }
        Some(entry.1)
    }

    proof fn lemma_shrunk_bucket(&self, hash: u64, at: int, new_bucket: Seq<(K, V)>)
        requires
            self.wf(),
            self.buckets@.contains_key(hash),
            0 <= at < self.buckets@[hash]@.len(),
            new_bucket == self.buckets@[hash]@.update(
                at,
                self.buckets@[hash]@.last(),
            ).drop_last(),
        ensures
            new_bucket.len() > 0 ==> Self::bucket_wf(new_bucket, hash),
            forall|i: int|
                0 <= i < new_bucket.len() ==> (#[trigger] new_bucket[i]).0.model()
                    != self.buckets@[hash]@[at].0.model(),
    {
        let old_bucket = self.buckets@[hash]@;
        let last = old_bucket.len() - 1;
        assert(Self::bucket_wf(old_bucket, hash));
        assert forall|i: int| 0 <= i < new_bucket.len() implies (#[trigger] new_bucket[i]).0.model()
            != old_bucket[at].0.model() by {
            let from = if i == at { last } else { i };
            assert(new_bucket[i] == old_bucket[from]);
            if from < at {
                assert(old_bucket[from].0.model() != old_bucket[at].0.model());
            } else {
                assert(old_bucket[at].0.model() != old_bucket[from].0.model());
            }
        }
        assert forall|i: int| 0 <= i < new_bucket.len() implies bucket_of::<K>(
            (#[trigger] new_bucket[i]).0.model(),
        ) == hash by {
            let from = if i == at { last } else { i };
            assert(bucket_of::<K>(old_bucket[from].0.model()) == hash);
        }
        assert forall|i: int, j: int| 0 <= i < j < new_bucket.len() implies (
        #[trigger] new_bucket[i]).0.model() != (#[trigger] new_bucket[j]).0.model() by {
            let from = if i == at { last } else { i };
            let to = if j == at { last } else { j };
            assert(old_bucket[i].0.model() != old_bucket[j].0.model());
            if from < to {
                assert(old_bucket[from].0.model() != old_bucket[to].0.model());
            } else {
                assert(old_bucket[to].0.model() != old_bucket[from].0.model());
            }
        }
    }

    /// Taking the entry at position `at` out of the bucket of `model` removes `model`
    /// from the map.
    proof fn lemma_shrunk(
        &self,
        after: Self,
        hash: u64,
        model: K::Model,
        at: int,
        new_bucket: Seq<(K, V)>,
    )
        requires
            self.wf(),
            hash == bucket_of::<K>(model),
            self.buckets@.contains_key(hash),
            0 <= at < self.buckets@[hash]@.len(),
            self.buckets@[hash]@[at].0.model() == model,
            new_bucket == self.buckets@[hash]@.update(
                at,
                self.buckets@[hash]@.last(),
            ).drop_last(),
            after.hashes@.no_duplicates(),
            forall|h: u64| #[trigger]
                after.hashes@.contains(h) <==> after.buckets@.contains_key(h),
            new_bucket.len() == 0 ==> after.buckets@ == self.buckets@.remove(hash),
            new_bucket.len() > 0 ==> after.buckets@.contains_key(hash)
                && after.buckets@[hash]@ == new_bucket && after.buckets@ == self.buckets@.insert(
                hash,
                after.buckets@[hash],
            ),
        ensures
            after.wf(),
            after.view() == self.view().remove(model),
    {
        let old_bucket = self.buckets@[hash]@;
        let last = old_bucket.len() - 1;
        self.lemma_shrunk_bucket(hash, at, new_bucket);
        assert forall|h: u64| #[trigger] after.buckets@.contains_key(h) implies Self::bucket_wf(
            after.buckets@[h]@,
            h,
        ) by {
            if h != hash {
                assert(self.buckets@.contains_key(h));
            }
        }
        assert(after.wf());
        let removed = self.view().remove(model);
        assert forall|m: K::Model|
            (#[trigger] after.view().dom().contains(m)) == removed.dom().contains(m) && (
            after.view().dom().contains(m) ==> after.view()[m] == removed[m]) by {
            if bucket_of::<K>(m) == hash {
                if after.view().contains_key(m) {
                    let i = slot_of(new_bucket, m);
                    assert(new_bucket[i].0.model() == m);
                    let from = if i == at { last } else { i };
                    assert(new_bucket[i] == old_bucket[from]);
                    after.lemma_entry(hash, i);
                    self.lemma_entry(hash, from);
                }
                if self.view().contains_key(m) && m != model {
                    let i = slot_of(old_bucket, m);
                    assert(old_bucket[i].0.model() == m);
                    assert(i != at);
                    let to = if i == last { at } else { i };
                    assert(new_bucket[to] == old_bucket[i]);
                    after.lemma_entry(hash, to);
                    self.lemma_entry(hash, i);
                }
            } else {
                assert(after.buckets@.contains_key(bucket_of::<K>(m)) == self.buckets@.contains_key(
                    bucket_of::<K>(m),
                ));
            }
        }
        assert(after.view() =~= removed);
    }

    /// Lists the keys of the map, each once.
    pub fn keys(&self) -> (keys: Vec<K>)
        requires
            self.wf(),
        ensures
            lists_keys(keys@, self@),
    {
        let mut keys: Vec<K> = Vec::new();
        let mut next: usize = 0;
        while next < self.hashes.len()
            invariant
                self.wf(),
                next <= self.hashes@.len(),
                forall|i: int| 0 <= i < keys@.len() ==> self.listed(keys@[i].model(), next as int, 0),
                forall|m: K::Model| #[trigger] self.listed(m, next as int, 0) ==> occurs(keys@, m),
                distinct(keys@),
            decreases self.hashes@.len() - next,
        {
            let hash = self.hashes[next];
            assert(self.hashes@.contains(hash));
            let bucket = match fx_get(&self.buckets, hash) {
                Some(bucket) => bucket,
                None => {
                    assert(false);
                    return keys;
                },
            };
            assert(Self::bucket_wf(bucket@, hash));
            let mut entry: usize = 0;
            while entry < bucket.len()
                invariant
                    self.wf(),
                    next < self.hashes@.len(),
                    hash == self.hashes@[next as int],
                    self.buckets@.contains_key(hash),
                    *bucket == self.buckets@[hash],
                    Self::bucket_wf(bucket@, hash),
                    entry <= bucket@.len(),
                    forall|i: int|
                        0 <= i < keys@.len() ==> self.listed(keys@[i].model(), next as int, entry as int),
                    forall|m: K::Model| #[trigger] self.listed(m, next as int, entry as int) ==> occurs(keys@, m),
                    distinct(keys@),
                decreases bucket@.len() - entry,
            {
                let ghost before = keys@;
                let ghost model = bucket@[entry as int].0.model();
                keys.push(bucket[entry].0.duplicate());
                proof {
                    assert(bucket_of::<K>(model) == hash);
                    assert(!self.listed(model, next as int, entry as int)) by {
                        if self.listed(model, next as int, entry as int) {
                            if self.earlier(model, next as int) {
                                let i = choose|i: int| 0 <= i < next && self.hashes@[i] == bucket_of::<K>(model);
                                assert(self.hashes@[i] == hash);
                            } else {
                                let i = choose|i: int| 0 <= i < entry && (#[trigger] bucket@[i]).0.model() == model;
                                assert(bucket@[i].0.model() != bucket@[entry as int].0.model());
                            }
                        }
                    }
                    assert(keys@ == before.push(keys@.last()));
                    assert forall|i: int| 0 <= i < keys@.len() implies self.listed(
                        keys@[i].model(),
                        next as int,
                        entry + 1,
                    ) by {
                        if i < before.len() {
                            assert(self.listed(before[i].model(), next as int, entry as int));
                        } else {
                            assert(bucket@[entry as int].0.model() == model);
                        }
                    }
                    assert forall|m: K::Model| #[trigger]
                        self.listed(m, next as int, entry + 1) implies occurs(keys@, m) by {
                        if m == model {
                            assert(keys@[before.len() as int].model() == m);
                        } else {
                            if !self.earlier(m, next as int) {
                                let i = choose|i: int| 0 <= i < entry + 1 && (#[trigger] bucket@[i]).0.model() == m;
                                assert(i < entry);
                            }
                            assert(self.listed(m, next as int, entry as int));
                            let i = choose|i: int| 0 <= i < before.len() && (#[trigger] before[i]).model() == m;
                            assert(keys@[i].model() == m);
                        }
                    }
                    assert forall|i: int, j: int| 0 <= i < j < keys@.len() implies (
                    #[trigger] keys@[i]).model() != (#[trigger] keys@[j]).model() by {
                        if j < before.len() {
                            assert(before[i].model() != before[j].model());
                        } else {
                            assert(self.listed(before[i].model(), next as int, entry as int));
                        }
                    }
                }
                entry = entry + 1;
            }
            proof {
                assert forall|m: K::Model| self.listed(m, next as int, entry as int) <==> #[trigger] self.listed(
                    m,
                    next + 1,
                    0,
                ) by {
                    if self.listed(m, next as int, entry as int) {
                        if self.earlier(m, next as int) {
                            let i = choose|i: int| 0 <= i < next && self.hashes@[i] == bucket_of::<K>(m);
                            assert(self.hashes@[i] == bucket_of::<K>(m));
                        } else {
                            let i = choose|i: int| 0 <= i < entry && (#[trigger] bucket@[i]).0.model() == m;
                            assert(bucket_of::<K>(bucket@[i].0.model()) == hash);
                            assert(self.hashes@[next as int] == bucket_of::<K>(m));
                        }
                    }
                    if self.listed(m, next + 1, 0) {
                        let i = choose|i: int| 0 <= i < next + 1 && self.hashes@[i] == bucket_of::<K>(m);
                        if i < next {
                            assert(self.earlier(m, next as int));
                        } else {
                            let k = slot_of(bucket@, m);
                            assert(files(bucket@, m));
                            assert(bucket@[k].0.model() == m);
                        }
                    }
                }
            }
            next = next + 1;
        }
        proof {
            assert forall|m: K::Model| self.view().contains_key(m) <==> #[trigger] occurs(keys@, m) by {
                if self.view().contains_key(m) {
                    assert(self.hashes@.contains(bucket_of::<K>(m)));
                    let i = choose|i: int| 0 <= i < self.hashes@.len() && self.hashes@[i] == bucket_of::<K>(m);
                    assert(self.earlier(m, next as int));
                    assert(self.listed(m, next as int, 0));
                }
                if occurs(keys@, m) {
                    let i = choose|i: int| 0 <= i < keys@.len() && (#[trigger] keys@[i]).model() == m;
                    assert(self.listed(keys@[i].model(), next as int, 0));
                }
            }
        }
        keys
    }

    closed spec fn earlier(&self, model: K::Model, next: int) -> bool {
        exists|i: int| 0 <= i < next && self.hashes@[i] == bucket_of::<K>(model)
    }

    /// Whether the key of an entry comes before the entry `entry` of bucket `next`.
    closed spec fn listed(&self, model: K::Model, next: int, entry: int) -> bool {
        ||| self.earlier(model, next) && self.view().contains_key(model)
        ||| 0 <= next < self.hashes@.len() && exists|i: int|
            0 <= i < entry && (#[trigger] self.buckets@[self.hashes@[next]]@[i]).0.model() == model
    }

    /// Takes every entry out of the map.
    pub fn clear(&mut self)
        ensures
            final(self).wf(),
            final(self)@ == Map::<K::Model, V>::empty(),
    {
        *self = FxMap::new();
    }
}

/// Whether a key of the given value occurs in a list of keys.
pub open spec fn occurs<K: FxKey>(keys: Seq<K>, model: K::Model) -> bool {
    exists|i: int| 0 <= i < keys.len() && (#[trigger] keys[i]).model() == model
}

/// Whether no two keys of a list are equal.
pub open spec fn distinct<K: FxKey>(keys: Seq<K>) -> bool {
    forall|i: int, j: int|
        0 <= i < j < keys.len() ==> (#[trigger] keys[i]).model() != (#[trigger] keys[j]).model()
}

/// Whether a list holds the keys of a map, each once.
pub open spec fn lists_keys<K: FxKey, V>(keys: Seq<K>, entries: Map<K::Model, V>) -> bool {
    &&& distinct(keys)
    &&& forall|m: K::Model| entries.contains_key(m) <==> #[trigger] occurs(keys, m)
    &&& forall|i: int| 0 <= i < keys.len() ==> entries.contains_key((#[trigger] keys[i]).model())
}

/// Whether a list holds the members of a set, each once.
pub open spec fn lists<K: FxKey>(items: Seq<K>, members: Set<K::Model>) -> bool {
    &&& distinct(items)
    &&& forall|m: K::Model| members.contains(m) <==> #[trigger] occurs(items, m)
    &&& forall|i: int| 0 <= i < items.len() ==> members.contains((#[trigger] items[i]).model())
}

/// A set that a list holds has as many members as the list has items.
pub proof fn lemma_listed_len<K: FxKey>(items: Seq<K>, members: Set<K::Model>)
    requires
        lists(items, members),
    ensures
        members.finite(),
        members.len() == items.len(),
    decreases items.len(),
{
    if items.len() == 0 {
        assert forall|m: K::Model| !members.contains(m) by {
            if members.contains(m) {
                assert(occurs(items, m));
            }
        }
        assert(members =~= Set::empty());
    } else {
        let last = items.last().model();
        let front = items.drop_last();
        let fewer = members.remove(last);
        assert forall|m: K::Model| fewer.contains(m) <==> #[trigger] occurs(front, m) by {
            if fewer.contains(m) {
                assert(occurs(items, m));
                let i = choose|i: int| 0 <= i < items.len() && (#[trigger] items[i]).model() == m;
                assert(front[i].model() == m);
            }
            if occurs(front, m) {
                let i = choose|i: int| 0 <= i < front.len() && (#[trigger] front[i]).model() == m;
                assert(items[i].model() == m);
                assert(items[i].model() != items[items.len() - 1].model());
            }
        }
        assert forall|i: int| 0 <= i < front.len() implies fewer.contains(
            (#[trigger] front[i]).model(),
        ) by {
            assert(items[i].model() != items[items.len() - 1].model());
        }
        assert forall|i: int, j: int| 0 <= i < j < front.len() implies (
        #[trigger] front[i]).model() != (#[trigger] front[j]).model() by {
            assert(items[i].model() != items[j].model());
        }
        lemma_listed_len(front, fewer);
        assert(occurs(items, last)) by {
            assert(items[items.len() - 1].model() == last);
        }
        assert(members =~= fewer.insert(last));
    }
}

/// A set of the values of keys.
#[verifier::reject_recursive_types(K)]
pub struct FxSet<K: FxKey> {
    members: FxMap<K, ()>,
}

impl<K: FxKey> FxSet<K> {
    pub closed spec fn wf(&self) -> bool {
        self.members.wf()
    }

    pub closed spec fn view(&self) -> Set<K::Model> {
        self.members@.dom()
    }

    pub fn new() -> (set: Self)
        ensures
            set.wf(),
            set@ == Set::<K::Model>::empty(),
    {
        let set = FxSet { members: FxMap::new() };
        assert(set.view() =~= Set::<K::Model>::empty());
        set
    }

    pub fn contains(&self, key: &K) -> (result: bool)
        requires
            self.wf(),
        ensures
            result == self@.contains(key.model()),
    {
        self.members.contains_key(key)
    }

    pub fn is_empty(&self) -> (result: bool)
        requires
            self.wf(),
        ensures
            result == (self@ == Set::<K::Model>::empty()),
    {
        proof {
            if self.view() == Set::<K::Model>::empty() {
                assert(self.members@ =~= Map::<K::Model, ()>::empty());
            } else if self.members@ == Map::<K::Model, ()>::empty() {
                assert(self.view() =~= Set::<K::Model>::empty());
            }
        }
        self.members.is_empty()
    }

    /// Makes `key` a member; tells whether it was none before.
    pub fn insert(&mut self, key: K) -> (new: bool)
        requires
            old(self).wf(),
        ensures
            final(self).wf(),
            final(self)@ == old(self)@.insert(key.model()),
            new == !old(self)@.contains(key.model()),
    {
        let ghost before = *self;
        let new = !self.members.contains_key(&key);
        self.members.insert(key, ());
        assert(self.view() =~= before.view().insert(key.model()));
        new
    }

    /// Makes `key` no member; tells whether it was one before.
    pub fn remove(&mut self, key: &K) -> (removed: bool)
        requires
            old(self).wf(),
        ensures
            final(self).wf(),
            final(self)@ == old(self)@.remove(key.model()),
            removed == old(self)@.contains(key.model()),
    {
        let ghost before = *self;
        let removed = self.members.remove(key).is_some();
        assert(self.view() =~= before.view().remove(key.model()));
        removed
    }

    /// Lists the members, each once.
    pub fn items(&self) -> (items: Vec<K>)
        requires
            self.wf(),
        ensures
            lists(items@, self@),
    {
        self.members.keys()
    }

    /// Leaves the set without members.
    pub fn clear(&mut self)
        ensures
            final(self).wf(),
            final(self)@ == Set::<K::Model>::empty(),
    {
        *self = FxSet::new();
    }

    pub fn duplicate(&self) -> (copy: Self)
        requires
            self.wf(),
        ensures
            copy.wf(),
            copy@ == self@,
    {
        let items = self.items();
        let mut copy: FxSet<K> = FxSet::new();
        let mut next: usize = 0;
        while next < items.len()
            invariant
                next <= items@.len(),
                copy.wf(),
                forall|m: K::Model| #[trigger]
                    copy@.contains(m) <==> occurs(items@.take(next as int), m),
            decreases items@.len() - next,
        {
            let ghost before = copy@;
            let ghost seen = items@.take(next as int);
            copy.insert(items[next].duplicate());
            next = next + 1;
            proof {
                let more = items@.take(next as int);
                assert forall|m: K::Model| #[trigger] copy@.contains(m) <==> occurs(more, m) by {
                    assert(before.contains(m) <==> occurs(seen, m));
                    if occurs(seen, m) {
                        let i = choose|i: int| 0 <= i < seen.len() && (#[trigger] seen[i]).model() == m;
                        assert(more[i].model() == m);
                    }
                    if occurs(more, m) {
                        let i = choose|i: int| 0 <= i < more.len() && (#[trigger] more[i]).model() == m;
                        if i < seen.len() {
                            assert(seen[i].model() == m);
                        }
                    }
                    assert(more[seen.len() as int] == items@[seen.len() as int]);
                }
            }
        }
        assert(items@.take(next as int) =~= items@);
        assert(copy.view() =~= self.view()) by {
            assert forall|m: K::Model| copy@.contains(m) <==> self@.contains(m) by {
                assert(self@.contains(m) <==> occurs(items@, m));
            }
        }
        copy
    }
}

impl FxKey for usize {
    type Model = usize;

    open spec fn model(&self) -> usize {
        *self
    }

    open spec fn words(model: usize) -> Seq<u64> {
        seq![model as u64]
    }

    fn same(&self, other: &Self) -> (result: bool) {
        *self == *other
    }

    fn duplicate(&self) -> (result: Self) {
        *self
    }

    fn to_words(&self) -> (words: Vec<u64>) {
        let mut words: Vec<u64> = Vec::new();
        words.push(*self as u64);
        assert(words@ =~= Self::words(*self));
        words
    }
}

} // verus!
