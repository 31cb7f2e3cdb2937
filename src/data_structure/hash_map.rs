use crate::supplementary::hash::{digest, hash, HashKey};
use vstd::prelude::*;

verus! {

/// Relies on rand::random: a value drawn from the thread-local generator. Nothing is
/// promised of it.
pub assume_specification<T>[ rand::random::<T> ]() -> (r: T)
    where
        rand::distributions::Standard: rand::distributions::Distribution<T>,
;

/// The bucket that key bytes `k` belong to, in a table of `n` buckets seeded with `seed`.
pub open spec fn bucket_index(seed: u64, k: Seq<u8>, n: nat) -> int {
    ((digest(seed, k) as usize) as int) % (n as int)
}

/// The key bytes of each entry of a bucket, in order.
pub open spec fn keys_of<K: HashKey, V>(b: Seq<(K, V)>) -> Seq<Seq<u8>> {
    b.map_values(|e: (K, V)| e.0.key_view())
}

/// Whether two byte sequences are equal.
fn bytes_eq(a: &Vec<u8>, b: &Vec<u8>) -> (r: bool)
    ensures
        r == (a@ == b@),
{
    if a.len() != b.len() {
        return false;
    }
    let mut i: usize = 0;
    while i < a.len()
        invariant
            a@.len() == b@.len(),
            i <= a@.len(),
            forall|t: int| 0 <= t < i ==> a@[t] == b@[t],
        decreases a@.len() - i,
    {
        if a[i] != b[i] {
            return false;
        }
        i = i + 1;
    }
    assert(a@ =~= b@);
    true
}

/// The value beside the first entry of `b` whose key bytes are `k`, if any.
pub open spec fn first_val<K: HashKey, V>(b: Seq<(K, V)>, k: Seq<u8>) -> Option<V>
    decreases b.len(),
{
    if b.len() == 0 {
        None
    } else if b[0].0.key_view() == k {
        Some(b[0].1)
    } else {
        first_val(b.drop_first(), k)
    }
}

/// How many entries of `b` repeat a key met earlier in `b`.
pub open spec fn repeats<K: HashKey, V>(b: Seq<(K, V)>) -> int {
    b.len() - keys_of(b).to_set().len()
}

/// The repeated entries of all the buckets of `bs`.
pub open spec fn all_repeats<K: HashKey, V>(bs: Seq<Vec<(K, V)>>) -> int
    decreases bs.len(),
{
    if bs.len() == 0 {
        0
    } else {
        all_repeats(bs.drop_last()) + repeats(bs.last()@)
    }
}

proof fn lemma_first_val_some<K: HashKey, V>(b: Seq<(K, V)>, k: Seq<u8>)
    ensures
        (first_val(b, k) is Some) == (exists|j: int| 0 <= j < b.len() && (#[trigger] b[j]).0.key_view() == k),
    decreases b.len(),
{
    if b.len() > 0 {
        lemma_first_val_some(b.drop_first(), k);
        if b[0].0.key_view() != k {
            if exists|j: int| 0 <= j < b.len() && (#[trigger] b[j]).0.key_view() == k {
                let j = choose|j: int| 0 <= j < b.len() && (#[trigger] b[j]).0.key_view() == k;
                assert(b.drop_first()[j - 1] == b[j]);
            }
            if exists|j: int| 0 <= j < b.drop_first().len() && (#[trigger] b.drop_first()[j]).0.key_view() == k {
                let j = choose|j: int|
                    0 <= j < b.drop_first().len() && (#[trigger] b.drop_first()[j]).0.key_view() == k;
                assert(b[j + 1] == b.drop_first()[j]);
            }
        }
    }
}

proof fn lemma_first_val_at<K: HashKey, V>(b: Seq<(K, V)>, k: Seq<u8>, j: int)
    requires
        0 <= j < b.len(),
        b[j].0.key_view() == k,
        forall|t: int| 0 <= t < j ==> (#[trigger] b[t]).0.key_view() != k,
    ensures
        first_val(b, k) == Some(b[j].1),
    decreases j,
{
    if j > 0 {
        assert(b[0].0.key_view() != k);
        assert forall|t: int| 0 <= t < j - 1 implies (#[trigger] b.drop_first()[t]).0.key_view() != k by {
            assert(b.drop_first()[t] == b[t + 1]);
        }
        lemma_first_val_at(b.drop_first(), k, j - 1);
    }
}

proof fn lemma_first_val_push<K: HashKey, V>(b: Seq<(K, V)>, e: (K, V), k: Seq<u8>)
    ensures
        first_val(b.push(e), k) == if first_val(b, k) is Some {
            first_val(b, k)
        } else if e.0.key_view() == k {
            Some(e.1)
        } else {
            None::<V>
        },
    decreases b.len(),
{
    if b.len() > 0 {
        assert(b.push(e)[0] == b[0]);
        assert(b.push(e).drop_first() =~= b.drop_first().push(e));
        lemma_first_val_push(b.drop_first(), e, k);
    } else {
        assert(b.push(e)[0] == e);
        assert(b.push(e).drop_first() =~= Seq::<(K, V)>::empty());
        assert(first_val(Seq::<(K, V)>::empty(), k) == None::<V>);
    }
}

proof fn lemma_first_val_update<K: HashKey, V>(b: Seq<(K, V)>, j: int, v: V, k: Seq<u8>)
    requires
        0 <= j < b.len(),
    ensures
        k != b[j].0.key_view() ==> first_val(b.update(j, (b[j].0, v)), k) == first_val(b, k),
        (forall|t: int| 0 <= t < j ==> (#[trigger] b[t]).0.key_view() != b[j].0.key_view()) && k
            == b[j].0.key_view() ==> first_val(b.update(j, (b[j].0, v)), k) == Some(v),
    decreases j,
{
    let b2 = b.update(j, (b[j].0, v));
    if j == 0 {
        assert(b2[0] == (b[0].0, v));
        assert(b2.drop_first() =~= b.drop_first());
    } else {
        assert(b2[0] == b[0]);
        assert(b2.drop_first() =~= b.drop_first().update(j - 1, (b[j].0, v)));
        assert(b.drop_first()[j - 1] == b[j]);
        lemma_first_val_update(b.drop_first(), j - 1, v, k);
        if forall|t: int| 0 <= t < j ==> (#[trigger] b[t]).0.key_view() != b[j].0.key_view() {
            assert forall|t: int| 0 <= t < j - 1 implies (#[trigger] b.drop_first()[t]).0.key_view()
                != b.drop_first()[j - 1].0.key_view() by {
                assert(b.drop_first()[t] == b[t + 1]);
            }
        }
    }
}

/// A sequence and its key bytes, one entry longer.
proof fn lemma_keys_push<K: HashKey, V>(b: Seq<(K, V)>, e: (K, V))
    ensures
        keys_of(b.push(e)) == keys_of(b).push(e.0.key_view()),
        keys_of(b.push(e)).to_set() == keys_of(b).to_set().insert(e.0.key_view()),
{
    assert(keys_of(b.push(e)) =~= keys_of(b).push(e.0.key_view()));
    keys_of(b).lemma_push_to_set_commute(e.0.key_view());
}

proof fn lemma_all_repeats_update<K: HashKey, V>(bs: Seq<Vec<(K, V)>>, i: int, x: Vec<(K, V)>)
    requires
        0 <= i < bs.len(),
    ensures
        all_repeats(bs.update(i, x)) == all_repeats(bs) - repeats(bs[i]@) + repeats(x@),
    decreases bs.len(),
{
    let u = bs.update(i, x);
    if i < bs.len() - 1 {
        assert(u.drop_last() =~= bs.drop_last().update(i, x));
        lemma_all_repeats_update(bs.drop_last(), i, x);
    } else {
        assert(u.drop_last() =~= bs.drop_last());
    }
}

proof fn lemma_all_repeats_bounds<K: HashKey, V>(bs: Seq<Vec<(K, V)>>)
    ensures
        all_repeats(bs) >= 0,
        (forall|i: int| 0 <= i < bs.len() ==> keys_of(#[trigger] bs[i]@).no_duplicates()) ==> all_repeats(bs)
            == 0,
    decreases bs.len(),
{
    if bs.len() > 0 {
        lemma_all_repeats_bounds(bs.drop_last());
        keys_of(bs.last()@).lemma_cardinality_of_set();
        if forall|i: int| 0 <= i < bs.len() ==> keys_of(#[trigger] bs[i]@).no_duplicates() {
            assert(bs.last() == bs[bs.len() - 1]);
            keys_of(bs.last()@).unique_seq_to_set();
            assert forall|i: int| 0 <= i < bs.drop_last().len() implies keys_of(
                #[trigger] bs.drop_last()[i]@,
            ).no_duplicates() by {
                assert(bs.drop_last()[i] == bs[i]);
            }
        }
    }
}

proof fn lemma_all_repeats_empty<K: HashKey, V>(bs: Seq<Vec<(K, V)>>)
    requires
        forall|i: int| 0 <= i < bs.len() ==> (#[trigger] bs[i])@.len() == 0,
    ensures
        all_repeats(bs) == 0,
        forall|i: int| 0 <= i < bs.len() ==> keys_of(#[trigger] bs[i]@).no_duplicates(),
    decreases bs.len(),
{
    assert forall|i: int| 0 <= i < bs.len() implies keys_of(#[trigger] bs[i]@).no_duplicates() by {
        assert(keys_of(bs[i]@) =~= Seq::<Seq<u8>>::empty());
    }
    lemma_all_repeats_bounds(bs);
}

/// One table of buckets: each bucket holds the entries whose key hashes to its index.
/// A key may sit in its bucket more than once; lookups find its first entry.
#[derive(Debug, Clone)]
pub struct BucketList<K, V> {
    seed: u64,
    len: usize,
    buckets: Vec<Vec<(K, V)>>,
}

impl<K: HashKey, V> View for BucketList<K, V> {
    type V = Map<Seq<u8>, V>;

    /// Each key present maps to the value beside its first entry in its bucket.
    closed spec fn view(&self) -> Map<Seq<u8>, V> {
        Map::new(
            |k: Seq<u8>| first_val(self.home(k), k) is Some,
            |k: Seq<u8>| first_val(self.home(k), k)->Some_0,
        )
    }
}

impl<K: HashKey, V> BucketList<K, V> {
    /// The number of buckets.
    pub closed spec fn bucket_count(&self) -> nat {
        self.buckets@.len()
    }

    /// The seed this table hashes with.
    pub closed spec fn seed(&self) -> u64 {
        self.seed
    }

    /// The entries of bucket `i`, in order.
    pub closed spec fn entries(&self, i: int) -> Seq<(K, V)> {
        self.buckets@[i]@
    }

    /// The number of entries, repeated keys included.
    pub closed spec fn entry_count(&self) -> nat {
        self.len as nat
    }

    /// No bucket holds a key twice.
    pub closed spec fn unique(&self) -> bool {
        forall|i: int| 0 <= i < self.buckets@.len() ==> keys_of(#[trigger] self.buckets@[i]@).no_duplicates()
    }

    /// The bucket that key bytes `k` belong to.
    pub open spec fn home_index(&self, k: Seq<u8>) -> int {
        bucket_index(self.seed(), k, self.bucket_count())
    }

    spec fn home(&self, k: Seq<u8>) -> Seq<(K, V)> {
        self.entries(self.home_index(k))
    }

    /// Every entry sits in the bucket its key hashes to.
    spec fn placed(&self) -> bool {
        &&& self.buckets@.len() >= 1
        &&& forall|i: int, j: int|
            0 <= i < self.buckets@.len() && 0 <= j < self.buckets@[i]@.len() ==> bucket_index(
                self.seed,
                (#[trigger] self.buckets@[i]@[j]).0.key_view(),
                self.buckets@.len(),
            ) == i
    }

    /// The entries are placed by their hashes, and the entry count is the number of
    /// keys plus the entries that repeat a key.
    pub closed spec fn wf(&self) -> bool {
        &&& self.placed()
        &&& self.buckets@.len() <= usize::MAX
        &&& self@.dom().finite()
        &&& self.len as int == self@.len() + all_repeats(self.buckets@)
    }

    /// What a well-formed table shows of itself: finitely many keys, at least one
    /// bucket, and as many entries as keys when no key repeats.
    pub proof fn lemma_wf_facts(&self)
        requires
            self.wf(),
        ensures
            self@.dom().finite(),
            self.bucket_count() >= 1,
            self@.len() <= self.entry_count(),
            self.unique() ==> self@.len() == self.entry_count(),
    {
        lemma_all_repeats_bounds(self.buckets@);
    }

    /// The key of the entry at `(i, j)` is in the table.
    proof fn lemma_key_in_view(&self, i: int, j: int)
        requires
            self.placed(),
            0 <= i < self.bucket_count(),
            0 <= j < self.entries(i).len(),
        ensures
            self@.contains_key(self.entries(i)[j].0.key_view()),
    {
        let k = self.entries(i)[j].0.key_view();
        assert(self.buckets@[i]@[j] == self.entries(i)[j]);
        assert(self.home_index(k) == i);
        lemma_first_val_some(self.home(k), k);
    }

    /// The entry at `(i, j)`, the first of its key, is what the table maps its key to.
    proof fn lemma_entry_in_view(&self, i: int, j: int)
        requires
            self.placed(),
            0 <= i < self.bucket_count(),
            0 <= j < self.entries(i).len(),
            forall|t: int|
                0 <= t < j ==> (#[trigger] self.entries(i)[t]).0.key_view() != self.entries(i)[j].0.key_view(),
        ensures
            self@.contains_key(self.entries(i)[j].0.key_view()),
            self@[self.entries(i)[j].0.key_view()] == self.entries(i)[j].1,
    {
        let k = self.entries(i)[j].0.key_view();
        assert(self.buckets@[i]@[j] == self.entries(i)[j]);
        assert(self.home_index(k) == i);
        lemma_first_val_at(self.home(k), k, j);
    }

    /// In a bucket without repeated keys every entry is the first of its key.
    proof fn lemma_unique_first(&self, i: int, j: int)
        requires
            self.unique(),
            0 <= i < self.bucket_count(),
            0 <= j < self.entries(i).len(),
        ensures
            forall|t: int|
                0 <= t < j ==> (#[trigger] self.entries(i)[t]).0.key_view() != self.entries(i)[j].0.key_view(),
    {
        assert(keys_of(self.buckets@[i]@).no_duplicates());
        assert forall|t: int| 0 <= t < j implies (#[trigger] self.entries(i)[t]).0.key_view()
            != self.entries(i)[j].0.key_view() by {
            assert(keys_of(self.buckets@[i]@)[t] == self.entries(i)[t].0.key_view());
            assert(keys_of(self.buckets@[i]@)[j] == self.entries(i)[j].0.key_view());
        }
    }

    /// Finds the home bucket of `key` and, if the key is there, its first position.
    fn locate(&self, key: &K) -> (r: (usize, Option<usize>))
        requires
            self.placed(),
        ensures
            r.0 as int == self.home_index(key.key_view()),
            r.0 < self.bucket_count(),
            match r.1 {
                Some(j) => j < self.entries(r.0 as int).len() && self.entries(r.0 as int)[j as int].0.key_view()
                    == key.key_view() && forall|t: int|
                    0 <= t < j ==> (#[trigger] self.entries(r.0 as int)[t]).0.key_view() != key.key_view(),
                None => !self@.contains_key(key.key_view()),
            },
    {
        let kb = key.key_bytes();
        let idx = (hash(self.seed, key) as usize) % self.buckets.len();
        let bucket = &self.buckets[idx];
        let mut j: usize = 0;
        while j < bucket.len()
            invariant
                idx < self.buckets@.len(),
                idx as int == self.home_index(key.key_view()),
                bucket@ == self.entries(idx as int),
                kb@ == key.key_view(),
                j <= bucket@.len(),
                forall|t: int| 0 <= t < j ==> (#[trigger] bucket@[t]).0.key_view() != key.key_view(),
            decreases bucket@.len() - j,
        {
            let other = bucket[j].0.key_bytes();
            if bytes_eq(&other, &kb) {
                return (idx, Some(j));
            }
            j = j + 1;
        }
        proof {
            lemma_first_val_some(self.home(key.key_view()), key.key_view());
        }
        (idx, None)
    }

    /// An empty table of one bucket that hashes with `seed`.
    pub fn with_seed(seed: u64) -> (r: Self)
        ensures
            r.wf(),
            r.unique(),
            r@ == Map::<Seq<u8>, V>::empty(),
            r.entry_count() == 0,
            r.bucket_count() == 1,
            r.seed() == seed,
    {
        let mut buckets: Vec<Vec<(K, V)>> = Vec::new();
        buckets.push(Vec::new());
        let r = BucketList { seed, len: 0, buckets };
        proof {
            lemma_all_repeats_empty(r.buckets@);
            assert(r@ =~= Map::<Seq<u8>, V>::empty());
        }
        r
    }

    /// An empty table of one bucket with a freshly drawn seed.
    pub fn new() -> (r: Self)
        ensures
            r.wf(),
            r.unique(),
            r@ == Map::<Seq<u8>, V>::empty(),
            r.entry_count() == 0,
            r.bucket_count() == 1,
    {
        Self::with_seed(rand::random::<u64>())
    }

    /// Appends `(key, value)` to the key's home bucket, without looking for the key
    /// among its entries, and returns that bucket's new length, which callers read as
    /// a load signal. A key already present keeps its value, since lookups find its
    /// first entry.
    pub fn push(&mut self, key: K, value: V) -> (r: usize)
        requires
            old(self).wf(),
            old(self).entry_count() < usize::MAX,
        ensures
            final(self).wf(),
            final(self).entry_count() == old(self).entry_count() + 1,
            final(self)@ == if old(self)@.contains_key(key.key_view()) {
                old(self)@
            } else {
                old(self)@.insert(key.key_view(), value)
            },
            old(self).unique() && !old(self)@.contains_key(key.key_view()) ==> final(self).unique(),
            final(self).bucket_count() == old(self).bucket_count(),
            final(self).seed() == old(self).seed(),
            r == old(self).entries(old(self).home_index(key.key_view())).len() + 1,
            final(self).entries(old(self).home_index(key.key_view())) == old(self).entries(
                old(self).home_index(key.key_view()),
            ).push((key, value)),
            forall|i: int|
                0 <= i < old(self).bucket_count() && i != old(self).home_index(key.key_view())
                    ==> #[trigger] final(self).entries(i) == old(self).entries(i),
    {
        let ghost kv = key.key_view();
        let ghost e = (key, value);
        let idx = (hash(self.seed, &key) as usize) % self.buckets.len();
        let ghost pre = *self;
        self.buckets[idx].push((key, value));
        self.len = self.len + 1;
        let r = self.buckets[idx].len();
        proof {
            let n = pre.buckets@.len();
            let i0 = idx as int;
            let b = pre.buckets@[i0]@;
            assert(self.buckets@[i0]@ == b.push(e));
            assert forall|i: int| 0 <= i < n && i != i0 implies self.buckets@[i] == pre.buckets@[i] by {}
            assert forall|i: int, j: int|
                0 <= i < n && 0 <= j < self.buckets@[i]@.len() implies bucket_index(
                self.seed,
                (#[trigger] self.buckets@[i]@[j]).0.key_view(),
                n,
            ) == i by {
                if i != i0 || j < b.len() {
                    assert(self.buckets@[i]@[j] == pre.buckets@[i]@[j]);
                }
            }
            assert(self.placed());
            lemma_first_val_some(b, kv);
            let present = pre@.contains_key(kv);
            let target = if present {
                pre@
            } else {
                pre@.insert(kv, value)
            };
            assert forall|k: Seq<u8>| #[trigger] self@.contains_key(k) == target.contains_key(k) && (
            self@.contains_key(k) ==> self@[k] == target[k]) by {
                if self.home_index(k) == i0 {
                    lemma_first_val_push(b, e, k);
                } else {
                    assert(self.home(k) == pre.home(k));
                }
            }
            assert(self@ =~= target);
            lemma_keys_push(b, e);
            lemma_all_repeats_update(pre.buckets@, i0, self.buckets@[i0]);
            assert(self.buckets@ =~= pre.buckets@.update(i0, self.buckets@[i0]));
            vstd::seq_lib::seq_to_set_is_finite(keys_of(b));
            assert(keys_of(b).to_set().contains(kv) == present) by {
                if present {
                    let j = choose|j: int| 0 <= j < b.len() && (#[trigger] b[j]).0.key_view() == kv;
                    assert(keys_of(b)[j] == kv);
                } else if keys_of(b).to_set().contains(kv) {
                    let j = choose|j: int| 0 <= j < keys_of(b).len() && keys_of(b)[j] == kv;
                    assert(b[j].0.key_view() == kv);
                }
            }
            if pre.unique() && !present {
                assert forall|i: int| 0 <= i < n implies keys_of(#[trigger] self.buckets@[i]@).no_duplicates() by {
                    if i != i0 {
                        assert(self.buckets@[i] == pre.buckets@[i]);
                    } else {
                        assert(keys_of(pre.buckets@[i]@).no_duplicates());
                    }
                }
            }
        }
        r
    }

    /// Replacing the value of the entry at `(i, j)`, the first of its key, by `v`
    /// keeps the table well formed and maps that entry's key to `v`.
    proof fn lemma_set_value(&self, post: Self, i: int, j: int, v: V)
        requires
            self.wf(),
            0 <= i < self.bucket_count(),
            0 <= j < self.entries(i).len(),
            forall|t: int|
                0 <= t < j ==> (#[trigger] self.entries(i)[t]).0.key_view() != self.entries(i)[j].0.key_view(),
            post.seed == self.seed,
            post.len == self.len,
            post.buckets@.len() == self.buckets@.len(),
            forall|t: int| 0 <= t < self.buckets@.len() && t != i ==> post.buckets@[t] == self.buckets@[t],
            post.buckets@[i]@ == self.buckets@[i]@.update(j, (self.buckets@[i]@[j].0, v)),
        ensures
            post.wf(),
            post@ == self@.insert(self.entries(i)[j].0.key_view(), v),
            post.unique() == self.unique(),
    {
        let n = self.buckets@.len();
        let b = self.buckets@[i]@;
        let kv = b[j].0.key_view();
        assert(keys_of(post.buckets@[i]@) =~= keys_of(b));
        assert forall|a: int, c: int|
            0 <= a < n && 0 <= c < post.buckets@[a]@.len() implies bucket_index(
            post.seed,
            (#[trigger] post.buckets@[a]@[c]).0.key_view(),
            n,
        ) == a by {
            if a == i {
                assert(post.buckets@[a]@[c].0 == self.buckets@[a]@[c].0);
            } else {
                assert(post.buckets@[a] == self.buckets@[a]);
            }
        }
        assert(post.placed());
        self.lemma_entry_in_view(i, j);
        let target = self@.insert(kv, v);
        assert forall|k: Seq<u8>| #[trigger] post@.contains_key(k) == target.contains_key(k) && (
        post@.contains_key(k) ==> post@[k] == target[k]) by {
            if post.home_index(k) == i {
                lemma_first_val_update(b, j, v, k);
                if k == kv {
                    assert(forall|t: int| 0 <= t < j ==> (#[trigger] b[t]).0.key_view() != b[j].0.key_view());
                }
            } else {
                assert(post.home(k) == self.home(k));
            }
        }
        assert(post@ =~= target);
        assert(target.dom() =~= self@.dom());
        assert(post.buckets@ =~= self.buckets@.update(i, post.buckets@[i]));
        lemma_all_repeats_update(self.buckets@, i, post.buckets@[i]);
        assert forall|a: int| 0 <= a < n implies keys_of(#[trigger] post.buckets@[a]@) == keys_of(
            self.buckets@[a]@,
        ) by {
            if a != i {
                assert(post.buckets@[a] == self.buckets@[a]);
            }
        }
    }

    /// A mutable reference to the value stored for `key`.
    pub fn get_mut(&mut self, key: &K) -> (r: Option<&mut V>)
        requires
            old(self).wf(),
        ensures
            r.is_some() == old(self)@.contains_key(key.key_view()),
            r.is_some() ==> *r.unwrap() == old(self)@[key.key_view()] && final(self)@ == old(self)@.insert(
                key.key_view(),
                *final(r.unwrap()),
            ),
            r.is_none() ==> *final(self) == *old(self),
            final(self).wf(),
            final(self).unique() == old(self).unique(),
            final(self).entry_count() == old(self).entry_count(),
            final(self).bucket_count() == old(self).bucket_count(),
            final(self).seed() == old(self).seed(),
    {
        let (idx, pos) = self.locate(key);
        match pos {
            Some(j) => {
                let ghost pre = *self;
                proof {
                    pre.lemma_entry_in_view(idx as int, j as int);
                    let (i, jj) = (idx as int, j as int);
                    assert forall|post: Self|
                        #![trigger post.wf()]
                        #![trigger post.view()]
                        post.seed == pre.seed && post.len == pre.len && post.buckets@.len()
                            == pre.buckets@.len() && (forall|t: int|
                            0 <= t < pre.buckets@.len() && t != i ==> post.buckets@[t] == pre.buckets@[t])
                            && post.buckets@[i]@ == pre.buckets@[i]@.update(
                            jj,
                            (pre.buckets@[i]@[jj].0, post.buckets@[i]@[jj].1),
                        ) implies post.wf() && post@ == pre@.insert(
                        key.key_view(),
                        post.buckets@[i]@[jj].1,
                    ) && post.unique() == pre.unique() by {
                        pre.lemma_set_value(post, i, jj, post.buckets@[i]@[jj].1);
                    }
                }
                let r = &mut self.buckets[idx][j].1;
                Some(r)
            },
            None => None,
        }
    }

    /// Empties bucket `index` and returns what it held; `None` when there is no such
    /// bucket.
    pub fn bucket(&mut self, index: usize) -> (r: Option<Vec<(K, V)>>)
        requires
            old(self).wf(),
        ensures
            index >= old(self).bucket_count() ==> r.is_none() && *final(self) == *old(self),
            index < old(self).bucket_count() ==> r.is_some() && r.unwrap()@ == old(self).entries(
                index as int,
            ) && final(self)@ == old(self)@.remove_keys(keys_of(r.unwrap()@).to_set()),
            index < old(self).bucket_count() ==> forall|j: int|
                0 <= j < r.unwrap()@.len() ==> old(self)@.contains_key((#[trigger] r.unwrap()@[j]).0.key_view()),
            index < old(self).bucket_count() && old(self).unique() ==> keys_of(r.unwrap()@).no_duplicates()
                && forall|j: int|
                0 <= j < r.unwrap()@.len() ==> old(self)@[(#[trigger] r.unwrap()@[j]).0.key_view()]
                    == r.unwrap()@[j].1,
            index < old(self).bucket_count() ==> final(self).entry_count() + r.unwrap()@.len()
                == old(self).entry_count(),
            index < old(self).bucket_count() && old(self).unique() ==> final(self)@.len() + r.unwrap()@.len()
                == old(self)@.len(),
            index < old(self).bucket_count() ==> forall|k: Seq<u8>| #[trigger]
                final(self)@.contains_key(k) ==> final(self).home_index(k) != index as int,
            final(self).wf(),
            old(self).unique() ==> final(self).unique(),
            final(self).bucket_count() == old(self).bucket_count(),
            final(self).seed() == old(self).seed(),
            forall|i: int|
                0 <= i < old(self).bucket_count() && i != index ==> #[trigger] final(self).entries(i)
                    == old(self).entries(i),
            index < old(self).bucket_count() ==> final(self).entries(index as int).len() == 0,
    {
        if index >= self.buckets.len() {
            return None;
        }
        let ghost pre = *self;
        let mut res: Vec<(K, V)> = Vec::new();
        std::mem::swap(&mut res, &mut self.buckets[index]);
        let ghost i = index as int;
        let ghost n = pre.buckets@.len();
        let ghost b = pre.buckets@[i]@;
        let ghost keys = keys_of(b);
        proof {
            assert(res@ == b);
            assert forall|j: int| 0 <= j < b.len() implies pre@.contains_key((#[trigger] b[j]).0.key_view()) by {
                pre.lemma_key_in_view(i, j);
            }
            vstd::seq_lib::seq_to_set_is_finite(keys);
            keys.lemma_cardinality_of_set();
            assert(keys.to_set().subset_of(pre@.dom())) by {
                assert forall|k: Seq<u8>| keys.to_set().contains(k) implies pre@.dom().contains(k) by {
                    let j = choose|j: int| 0 <= j < keys.len() && keys[j] == k;
                    assert(b[j].0.key_view() == k);
                }
            }
            vstd::set_lib::lemma_len_subset(keys.to_set(), pre@.dom());
            assert(self.buckets@ =~= pre.buckets@.update(i, self.buckets@[i]));
            lemma_all_repeats_update(pre.buckets@, i, self.buckets@[i]);
            assert(keys_of(self.buckets@[i]@) =~= Seq::<Seq<u8>>::empty());
            assert(keys_of(self.buckets@[i]@).to_set() =~= Set::<Seq<u8>>::empty());
            lemma_all_repeats_bounds(pre.buckets@);
            lemma_all_repeats_bounds(self.buckets@);
        }
        self.len = self.len - res.len();
        proof {
            assert forall|t: int| 0 <= t < n && t != i implies self.buckets@[t] == pre.buckets@[t] by {}
            assert(self.placed());
            let target = pre@.remove_keys(keys.to_set());
            assert forall|k: Seq<u8>| #[trigger] self@.contains_key(k) == target.contains_key(k) && (
            self@.contains_key(k) ==> self@[k] == target[k]) by {
                if self.home_index(k) == i {
                    assert(self.home(k).len() == 0);
                    if pre@.contains_key(k) {
                        lemma_first_val_some(b, k);
                        let j = choose|j: int| 0 <= j < b.len() && (#[trigger] b[j]).0.key_view() == k;
                        assert(keys[j] == k);
                    }
                } else {
                    assert(self.home(k) == pre.home(k));
                    if keys.to_set().contains(k) {
                        let j = choose|j: int| 0 <= j < keys.len() && keys[j] == k;
                        assert(b[j] == pre.buckets@[i]@[j]);
                    }
                }
            }
            assert(self@ =~= target);
            assert forall|k: Seq<u8>| #[trigger] self@.contains_key(k) implies self.home_index(k) != i by {
                if self.home_index(k) == i {
                    assert(self.home(k).len() == 0);
                }
            }
            assert(target.dom() =~= pre@.dom().difference(keys.to_set()));
            assert(pre@.dom().intersect(keys.to_set()) =~= keys.to_set());
            vstd::set_lib::lemma_set_difference_len(pre@.dom(), keys.to_set());
            if pre.unique() {
                assert(keys.no_duplicates());
                keys.unique_seq_to_set();
                assert forall|j: int| 0 <= j < b.len() implies pre@[(#[trigger] b[j]).0.key_view()] == b[j].1 by {
                    pre.lemma_unique_first(i, j);
                    pre.lemma_entry_in_view(i, j);
                }
                assert forall|a: int| 0 <= a < n implies keys_of(#[trigger] self.buckets@[a]@).no_duplicates() by {
                    if a != i {
                        assert(self.buckets@[a] == pre.buckets@[a]);
                    }
                }
            }
        }
        Some(res)
    }

    /// Adds empty buckets to an empty table until there are `n` of them; never removes
    /// any.
    pub fn set_buckets(&mut self, n: usize)
        requires
            old(self).wf(),
            old(self)@.len() == 0,
        ensures
            final(self).wf(),
            final(self).unique(),
            final(self)@ == old(self)@,
            final(self).entry_count() == 0,
            final(self).seed() == old(self).seed(),
            final(self).bucket_count() == if n > old(self).bucket_count() {
                n as nat
            } else {
                old(self).bucket_count()
            },
    {
        let ghost pre = *self;
        proof {
            assert forall|a: int| 0 <= a < pre.buckets@.len() implies (#[trigger] pre.buckets@[a])@.len()
                == 0 by {
                if pre.buckets@[a]@.len() > 0 {
                    pre.lemma_key_in_view(a, 0);
                    assert(pre@.dom().contains(pre.buckets@[a]@[0].0.key_view()));
                    vstd::set_lib::lemma_set_empty_equivalency_len(pre@.dom());
                }
            }
            lemma_all_repeats_empty(pre.buckets@);
        }
        let mut i: usize = self.buckets.len();
        while i < n
            invariant
                self.seed == pre.seed,
                self.len == pre.len,
                self.len == 0,
                self.buckets@.len() == i,
                i >= pre.buckets@.len(),
                i == pre.buckets@.len() || i <= n,
                forall|t: int| 0 <= t < self.buckets@.len() ==> (#[trigger] self.buckets@[t])@.len() == 0,
            decreases n - i,
        {
            self.buckets.push(Vec::new());
            i = i + 1;
        }
        proof {
            lemma_all_repeats_empty(self.buckets@);
            assert(self@ =~= Map::<Seq<u8>, V>::empty());
            assert(pre@ =~= Map::<Seq<u8>, V>::empty()) by {
                vstd::set_lib::lemma_set_empty_equivalency_len(pre@.dom());
            }
        }
    }

    /// Looks up the value stored for `key`: the one beside its first entry.
    pub fn get(&self, key: &K) -> (r: Option<&V>)
        requires
            self.wf(),
        ensures
            match r {
                Some(v) => self@.contains_key(key.key_view()) && *v == self@[key.key_view()],
                None => !self@.contains_key(key.key_view()),
            },
    {
        let (idx, pos) = self.locate(key);
        match pos {
            Some(j) => {
                proof {
                    self.lemma_entry_in_view(idx as int, j as int);
                }
                Some(&self.buckets[idx][j].1)
            },
            None => None,
        }
    }
}

/// Per-bucket load above which a stable map starts to migrate.
pub const BUCKET_SIZE: usize = 8;

/// The size a growth table is given: twice `n`, or `n` itself when twice `n` does not
/// fit in a `usize`.
pub open spec fn doubled(n: nat) -> nat {
    if n <= usize::MAX / 2 {
        2 * n
    } else {
        n
    }
}

/// A hash map that grows incrementally: when a bucket gets too full it starts moving
/// the buckets of its main table into a table twice as large, one bucket per insert,
/// and swaps the two tables once every bucket has moved.
#[derive(Debug, Clone)]
pub struct HashMap<K, V> {
    n_moved: usize,
    main: BucketList<K, V>,
    grow: BucketList<K, V>,
}

impl<K: HashKey, V> View for HashMap<K, V> {
    type V = Map<Seq<u8>, V>;

    /// The keys of both tables, each with its value.
    closed spec fn view(&self) -> Map<Seq<u8>, V> {
        self.main@.union_prefer_right(self.grow@)
    }
}

impl<K: HashKey, V> HashMap<K, V> {
    /// How many buckets of the main table have moved; zero when the map is stable.
    pub closed spec fn moved(&self) -> nat {
        self.n_moved as nat
    }

    /// The number of buckets of the main table.
    pub closed spec fn main_buckets(&self) -> nat {
        self.main.bucket_count()
    }

    /// The number of buckets of the growth table.
    pub closed spec fn growth_buckets(&self) -> nat {
        self.grow.bucket_count()
    }

    /// The keys held by the main table, with their values.
    pub closed spec fn main_map(&self) -> Map<Seq<u8>, V> {
        self.main@
    }

    /// The keys held by the growth table, with their values.
    pub closed spec fn growth_map(&self) -> Map<Seq<u8>, V> {
        self.grow@
    }

    /// The entries of bucket `i` of the main table.
    pub closed spec fn main_entries(&self, i: int) -> Seq<(K, V)> {
        self.main.entries(i)
    }

    /// The seed the main table hashes with.
    pub closed spec fn main_seed(&self) -> u64 {
        self.main.seed()
    }

    /// The main-table bucket that key bytes `k` belong to.
    pub open spec fn main_home(&self, k: Seq<u8>) -> int {
        bucket_index(self.main_seed(), k, self.main_buckets())
    }

    /// The load of a main-table bucket is the number of keys of the main table that
    /// belong to it.
    pub proof fn lemma_home_load(&self, k: Seq<u8>)
        requires
            self.wf(),
        ensures
            self.home_load(k) == self.main_map().dom().filter(
                |k2: Seq<u8>| self.main_home(k2) == self.main_home(k),
            ).len(),
    {
        let i = self.main.home_index(k);
        let b = self.main.entries(i);
        let keys = keys_of(b);
        let s = self.main_map().dom().filter(|k2: Seq<u8>| self.main_home(k2) == self.main_home(k));
        self.main.lemma_wf_facts();
        assert(0 <= i < self.main.bucket_count()) by {
            vstd::arithmetic::div_mod::lemma_mod_bound(
                (digest(self.main.seed(), k) as usize) as int,
                self.main.bucket_count() as int,
            );
        }
        assert(keys.no_duplicates()) by {
            assert(keys_of(self.main.buckets@[i]@).no_duplicates());
        }
        keys.unique_seq_to_set();
        assert forall|k2: Seq<u8>| #[trigger] keys.to_set().contains(k2) == s.contains(k2) by {
            if keys.to_set().contains(k2) {
                let j = choose|j: int| 0 <= j < keys.len() && keys[j] == k2;
                assert(b[j].0.key_view() == k2);
                assert(self.main.buckets@[i]@[j] == b[j]);
                self.main.lemma_key_in_view(i, j);
            }
            if s.contains(k2) {
                lemma_first_val_some(self.main.home(k2), k2);
                let j = choose|j: int| 0 <= j < b.len() && (#[trigger] b[j]).0.key_view() == k2;
                assert(keys[j] == k2);
            }
        }
        assert(keys.to_set() =~= s);
    }

    /// While a stable map has a single main bucket, every key belongs to it, so its
    /// load is the number of keys in the map.
    pub proof fn lemma_single_bucket_load(&self, k: Seq<u8>)
        requires
            self.wf(),
            self.moved() == 0,
            self.main_buckets() == 1,
        ensures
            self.home_load(k) == self@.len(),
    {
        self.lemma_home_load(k);
        self.lemma_wf_facts();
        let s = self.main_map().dom().filter(|k2: Seq<u8>| self.main_home(k2) == self.main_home(k));
        assert forall|k2: Seq<u8>| self.main_home(k2) == 0 by {}
        assert(s =~= self.main_map().dom());
        assert(self@.dom() =~= self.main_map().dom());
    }

    /// The number of entries in the main-table bucket that key bytes `k` belong to.
    pub closed spec fn home_load(&self, k: Seq<u8>) -> nat {
        self.main.entries(self.main.home_index(k)).len()
    }

    /// Both tables are well formed and share no key, the buckets already moved are
    /// empty, the growth table is empty while the map is stable, and the count fits.
    pub closed spec fn wf(&self) -> bool {
        &&& self.main.wf()
        &&& self.grow.wf()
        &&& self.main.unique()
        &&& self.grow.unique()
        &&& self.n_moved <= self.main.bucket_count()
        &&& self.main@.dom().disjoint(self.grow@.dom())
        &&& forall|k: Seq<u8>| #[trigger]
            self.main@.contains_key(k) ==> self.main.home_index(k) >= self.n_moved
        &&& self.n_moved == 0 ==> self.grow@.len() == 0
        &&& self.n_moved == 0 ==> self.grow.bucket_count() <= self.main.bucket_count()
        &&& self.n_moved > 0 ==> self.grow.bucket_count() == doubled(self.main.bucket_count())
        &&& self.main@.len() + self.grow@.len() <= usize::MAX
    }

    /// What a well-formed map shows of itself: finitely many keys, both tables have
    /// buckets, the migration cursor stays within the main table, and while migrating
    /// the growth table has twice the main table's buckets.
    pub proof fn lemma_wf_facts(&self)
        requires
            self.wf(),
        ensures
            self@.dom().finite(),
            self@.dom() == self.main_map().dom() + self.growth_map().dom(),
            self.main_map().dom().disjoint(self.growth_map().dom()),
            self.main_buckets() >= 1,
            self.growth_buckets() >= 1,
            self.moved() <= self.main_buckets(),
            self.moved() > 0 ==> self.growth_buckets() == doubled(self.main_buckets()),
            self.moved() == 0 ==> self.growth_map() == Map::<Seq<u8>, V>::empty(),
    {
        self.lemma_len();
        assert(self@.dom() =~= self.main@.dom() + self.grow@.dom());
        if self.n_moved == 0 {
            vstd::set_lib::lemma_set_empty_equivalency_len(self.grow@.dom());
            assert(self.grow@ =~= Map::<Seq<u8>, V>::empty());
        }
    }

    proof fn lemma_len(&self)
        requires
            self.wf(),
        ensures
            self@.dom().finite(),
            self@.len() == self.main@.len() + self.grow@.len(),
            self.main.entry_count() == self.main@.len(),
            self.grow.entry_count() == self.grow@.len(),
    {
        self.main.lemma_wf_facts();
        self.grow.lemma_wf_facts();
        assert(self@.dom() =~= self.main@.dom() + self.grow@.dom());
        vstd::set_lib::lemma_set_disjoint_lens(self.main@.dom(), self.grow@.dom());
    }

    /// An empty, stable map.
    pub fn new() -> (r: Self)
        ensures
            r.wf(),
            r@ == Map::<Seq<u8>, V>::empty(),
            r.moved() == 0,
            r.main_buckets() == 1,
            r.growth_buckets() == 1,
    {
        let r = HashMap { n_moved: 0, main: BucketList::new(), grow: BucketList::new() };
        proof {
            assert(r@ =~= Map::<Seq<u8>, V>::empty());
        }
        r
    }

    /// The number of keys in the map.
    pub fn len(&self) -> (r: usize)
        requires
            self.wf(),
        ensures
            r == self@.len(),
            self@.dom().finite(),
    {
        proof {
            self.lemma_len();
        }
        self.main.len + self.grow.len
    }

    /// How many buckets of the main table have moved; zero when the map is stable.
    pub fn migration_progress(&self) -> (r: usize)
        ensures
            r == self.moved(),
    {
        self.n_moved
    }

    /// Looks up the value stored for `kr`.
    pub fn get(&self, kr: &K) -> (r: Option<&V>)
        requires
            self.wf(),
        ensures
            match r {
                Some(v) => self@.contains_key(kr.key_view()) && *v == self@[kr.key_view()],
                None => !self@.contains_key(kr.key_view()),
            },
    {
        match self.main.get(kr) {
            Some(v) => Some(v),
            None => self.grow.get(kr),
        }
    }

    /// A mutable reference to the value stored for `kr`.
    pub fn get_mut(&mut self, kr: &K) -> (r: Option<&mut V>)
        requires
            old(self).wf(),
        ensures
            r.is_some() == old(self)@.contains_key(kr.key_view()),
            r.is_some() ==> *r.unwrap() == old(self)@[kr.key_view()] && final(self)@ == old(self)@.insert(
                kr.key_view(),
                *final(r.unwrap()),
            ),
            r.is_none() ==> final(self)@ == old(self)@,
            final(self).wf(),
            final(self).moved() == old(self).moved(),
            final(self).main_buckets() == old(self).main_buckets(),
            final(self).growth_buckets() == old(self).growth_buckets(),
    {
        match self.main.get_mut(kr) {
            Some(v) => {
                return Some(v);
            },
            None => {},
        }
        self.grow.get_mut(kr)
    }

    /// One migration step. A stable map first sizes its growth table at twice the
    /// main table. The next unmoved bucket of the main table then moves into the
    /// growth table; when none is left, the two tables swap and the map is stable.
    pub fn move_buckets(&mut self)
        requires
            old(self).wf(),
        ensures
            final(self).wf(),
            final(self)@ == old(self)@,
            old(self).moved() == 0 ==> final(self).growth_buckets() == doubled(old(self).main_buckets()),
            0 < old(self).moved() < old(self).main_buckets() ==> final(self).growth_buckets()
                == old(self).growth_buckets(),
            old(self).moved() < old(self).main_buckets() ==> final(self).moved() == old(self).moved() + 1
                && final(self).main_buckets() == old(self).main_buckets() && final(self).main_entries(
                old(self).moved() as int,
            ).len() == 0 && final(self).main_map() == old(self).main_map().remove_keys(
                keys_of(old(self).main_entries(old(self).moved() as int)).to_set(),
            ) && final(self).growth_map() == old(self).growth_map().union_prefer_right(
                old(self).main_map().restrict(keys_of(old(self).main_entries(old(self).moved() as int)).to_set()),
            ),
            old(self).moved() == old(self).main_buckets() ==> final(self).moved() == 0
                && final(self).main_buckets() == old(self).growth_buckets() && final(self).growth_buckets()
                == old(self).main_buckets() && final(self).main_map() == old(self).growth_map()
                && final(self).growth_map() == Map::<Seq<u8>, V>::empty(),
    {
        let ghost total = self@;
        proof {
            self.lemma_len();
        }
        if self.n_moved == 0 {
            let count = self.main.buckets.len();
            let target = if count <= usize::MAX / 2 {
                count * 2
            } else {
                count
            };
            self.grow.set_buckets(target);
        }
        let ghost main0 = self.main@;
        let ghost grow0 = self.grow@;
        let ghost grow_count = self.grow.bucket_count();
        let n_moved = self.n_moved;
        match self.main.bucket(n_moved) {
            Some(b) => {
                let ghost b0 = b@;
                let ghost main_after = self.main;
                let mut b = b;
                proof {
                    assert forall|j: int| 0 <= j < b0.len() implies keys_of(b0).to_set().contains(
                        (#[trigger] b0[j]).0.key_view(),
                    ) by {
                        assert(keys_of(b0)[j] == b0[j].0.key_view());
                    }
                }
                while b.len() > 0
                    invariant
                        self.main.wf(),
                        self.grow.wf(),
                        self.main.unique(),
                        self.grow.unique(),
                        self.main@ == main0.remove_keys(keys_of(b0).to_set()),
                        self.main.bucket_count() == old(self).main.bucket_count(),
                        self.main.seed() == old(self).main.seed(),
                        self.grow.bucket_count() == grow_count,
                        self.main == main_after,
                        forall|k: Seq<u8>| #[trigger] grow0.contains_key(k) ==> self.grow@.contains_key(k),
                        self.n_moved == n_moved,
                        n_moved < self.main.bucket_count(),
                        forall|k: Seq<u8>| #[trigger]
                            self.main@.contains_key(k) ==> self.main.home_index(k) >= n_moved + 1,
                        keys_of(b0).no_duplicates(),
                        b@.len() <= b0.len(),
                        b@ == b0.subrange(0, b@.len() as int),
                        forall|j: int|
                            0 <= j < b0.len() ==> main0.contains_key((#[trigger] b0[j]).0.key_view())
                                && main0[b0[j].0.key_view()] == b0[j].1,
                        forall|j: int|
                            0 <= j < b0.len() ==> keys_of(b0).to_set().contains((#[trigger] b0[j]).0.key_view()),
                        forall|j: int|
                            0 <= j < b@.len() ==> !self.grow@.contains_key((#[trigger] b@[j]).0.key_view()),
                        forall|k: Seq<u8>| #[trigger]
                            self.grow@.contains_key(k) ==> total.contains_key(k) && total[k] == self.grow@[k],
                        forall|k: Seq<u8>| #[trigger]
                            total.contains_key(k) ==> self.main@.contains_key(k) || self.grow@.contains_key(k)
                                || exists|j: int| 0 <= j < b@.len() && (#[trigger] b@[j]).0.key_view() == k,
                        self.main@.dom().disjoint(self.grow@.dom()),
                        self.main@.len() + self.grow@.len() + b@.len() == total.len(),
                        total.len() <= usize::MAX,
                        total == main0.union_prefer_right(grow0),
                        main0.dom().disjoint(grow0.dom()),
                    decreases b@.len(),
                {
                    let ghost before = b@;
                    proof {
                        self.grow.lemma_wf_facts();
                        self.main.lemma_wf_facts();
                    }
                    let (k, v) = b.pop().unwrap();
                    proof {
                        let last = before.len() - 1;
                        assert(before[last] == (k, v));
                        assert(b@ == before.subrange(0, last));
                        assert(b@ =~= b0.subrange(0, b@.len() as int));
                        assert(!self.grow@.contains_key(before[last].0.key_view()));
                        assert(before[last] == b0[last]);
                        assert(keys_of(b0)[last] == k.key_view());
                        assert forall|j: int| 0 <= j < b@.len() implies (#[trigger] b@[j]).0.key_view()
                            != k.key_view() by {
                            assert(b@[j] == b0[j]);
                            assert(keys_of(b0)[j] == b0[j].0.key_view());
                        }
                    }
                    self.grow.push(k, v);
                    proof {
                        assert forall|k2: Seq<u8>| #[trigger]
                            total.contains_key(k2) implies self.main@.contains_key(k2) || self.grow@.contains_key(k2)
                                || exists|j: int| 0 <= j < b@.len() && (#[trigger] b@[j]).0.key_view() == k2 by {
                            if !self.main@.contains_key(k2) && !self.grow@.contains_key(k2) {
                                let j = choose|j: int| 0 <= j < before.len() && (#[trigger] before[j]).0.key_view() == k2;
                                assert(j < b@.len());
                                assert(b@[j] == before[j]);
                            }
                        }
                        assert forall|j: int| 0 <= j < b@.len() implies !self.grow@.contains_key(
                            (#[trigger] b@[j]).0.key_view(),
                        ) by {
                            assert(b@[j] == before[j]);
                        }
                        let kk = k.key_view();
                        assert(!main0.remove_keys(keys_of(b0).to_set()).contains_key(kk));
                        assert(self.main@.dom().disjoint(self.grow@.dom()));
                    }
                }
                self.n_moved = n_moved + 1;
                proof {
                    assert(self@ =~= total);
                    let keys = keys_of(b0).to_set();
                    let target = grow0.union_prefer_right(main0.restrict(keys));
                    assert forall|k: Seq<u8>| #[trigger] self.grow@.contains_key(k) <==> target.contains_key(k) by {
                        if self.grow@.contains_key(k) && !grow0.contains_key(k) {
                            assert(total.contains_key(k));
                            assert(!self.main@.contains_key(k));
                            assert(main0.contains_key(k));
                            assert(keys.contains(k));
                        }
                        if target.contains_key(k) && !grow0.contains_key(k) {
                            assert(main0.contains_key(k) && keys.contains(k));
                            assert(total.contains_key(k));
                            assert(!self.main@.contains_key(k));
                            assert(!(exists|j: int| 0 <= j < b@.len() && (#[trigger] b@[j]).0.key_view() == k));
                        }
                    }
                    assert forall|k: Seq<u8>| #[trigger] self.grow@.contains_key(k) implies self.grow@[k]
                        == target[k] by {
                        assert(total[k] == self.grow@[k]);
                        if grow0.contains_key(k) {
                            assert(!main0.contains_key(k));
                        }
                    }
                    assert(self.grow@ =~= target);
                }
                return;
            },
            None => {},
        }
        std::mem::swap(&mut self.main, &mut self.grow);
        self.n_moved = 0;
        proof {
            assert forall|k: Seq<u8>| !self.grow@.contains_key(k) by {
                if self.grow@.contains_key(k) {
                    assert(self.grow.home_index(k) >= n_moved);
                    assert(self.grow.home_index(k) < self.grow.bucket_count());
                }
            }
            assert(self.grow@.dom() =~= Set::<Seq<u8>>::empty());
            assert(self.grow@ =~= Map::<Seq<u8>, V>::empty());
            assert(self@ =~= total);
        }
    }

    /// Inserts `value` under `key`: an existing key has its value replaced in place; a
    /// new key goes to the growth table while the map migrates, followed by one
    /// migration step, and otherwise to the main table, starting a migration when its
    /// bucket grows past half of `BUCKET_SIZE`.
    pub fn insert(&mut self, key: K, value: V)
        requires
            old(self).wf(),
            old(self)@.contains_key(key.key_view()) || old(self)@.len() < usize::MAX,
        ensures
            final(self).wf(),
            final(self)@ == old(self)@.insert(key.key_view(), value),
            old(self)@.contains_key(key.key_view()) ==> final(self).moved() == old(self).moved()
                && final(self).main_buckets() == old(self).main_buckets() && final(self).growth_buckets()
                == old(self).growth_buckets(),
            !old(self)@.contains_key(key.key_view()) && old(self).moved() == 0 && old(self).home_load(
                key.key_view(),
            ) + 1 > BUCKET_SIZE / 2 ==> final(self).moved() == 1 && final(self).main_buckets() == old(
                self,
            ).main_buckets() && final(self).growth_buckets() == doubled(old(self).main_buckets()),
            !old(self)@.contains_key(key.key_view()) && old(self).moved() == 0 && old(self).home_load(
                key.key_view(),
            ) + 1 <= BUCKET_SIZE / 2 ==> final(self).moved() == 0 && final(self).main_buckets() == old(
                self,
            ).main_buckets() && final(self).growth_buckets() == old(self).growth_buckets(),
            !old(self)@.contains_key(key.key_view()) && old(self).moved() == 0 && old(self).home_load(
                key.key_view(),
            ) + 1 <= BUCKET_SIZE / 2 ==> final(self).main_map() == old(self).main_map().insert(
                key.key_view(),
                value,
            ) && final(self).growth_map() == old(self).growth_map(),
            !old(self)@.contains_key(key.key_view()) && 0 < old(self).moved() < old(self).main_buckets()
                ==> final(self).growth_map().contains_key(key.key_view()) && final(self).growth_map()[key.key_view()]
                == value,
            !old(self)@.contains_key(key.key_view()) && 0 < old(self).moved() == old(self).main_buckets()
                ==> final(self).main_map().contains_key(key.key_view()) && final(self).main_map()[key.key_view()]
                == value,
            !old(self)@.contains_key(key.key_view()) && 0 < old(self).moved() < old(self).main_buckets()
                ==> final(self).moved() == old(self).moved() + 1 && final(self).main_buckets() == old(
                self,
            ).main_buckets() && final(self).growth_buckets() == old(self).growth_buckets(),
            !old(self)@.contains_key(key.key_view()) && 0 < old(self).moved() == old(self).main_buckets()
                ==> final(self).moved() == 0 && final(self).main_buckets() == doubled(old(self).main_buckets())
                && final(self).main_buckets() == old(self).growth_buckets() && final(self).growth_buckets()
                == old(self).main_buckets(),
    {
        let ghost kv = key.key_view();
        let ghost pre = self@;
        proof {
            self.lemma_len();
        }
        match self.main.get_mut(&key) {
            Some(iv) => {
                *iv = value;
                proof {
                    assert(self@ =~= pre.insert(kv, value));
                }
                return;
            },
            None => {},
        }
        match self.grow.get_mut(&key) {
            Some(iv) => {
                *iv = value;
                proof {
                    assert(self@ =~= pre.insert(kv, value));
                }
                return;
            },
            None => {},
        }
        if self.n_moved > 0 {
            self.grow.push(key, value);
            proof {
                assert(self@ =~= pre.insert(kv, value));
            }
            self.move_buckets();
            return;
        }
        let load = self.main.push(key, value);
        proof {
            assert(self@ =~= pre.insert(kv, value));
        }
        if load > BUCKET_SIZE / 2 {
            self.move_buckets();
        }
    }
}

impl<K: HashKey, V> Default for HashMap<K, V> {
    fn default() -> (r: Self)
        ensures
            r.wf(),
            r@ == Map::<Seq<u8>, V>::empty(),
            r.moved() == 0,
            r.main_buckets() == 1,
            r.growth_buckets() == 1,
    {
        Self::new()
    }
}

impl<K: HashKey, V> Default for BucketList<K, V> {
    fn default() -> (r: Self)
        ensures
            r.wf(),
            r@ == Map::<Seq<u8>, V>::empty(),
            r.bucket_count() == 1,
    {
        Self::new()
    }
}

/// The map reached from `m` by inserting each `(key, value)` of `ops` in order, as
/// `HashMap::insert` changes the view.
pub open spec fn apply_inserts<V>(m: Map<Seq<u8>, V>, ops: Seq<(Seq<u8>, V)>) -> Map<Seq<u8>, V>
    decreases ops.len(),
{
    if ops.len() == 0 {
        m
    } else {
        apply_inserts(m, ops.drop_last()).insert(ops.last().0, ops.last().1)
    }
}

/// The keys of a sequence of insertions, in order.
pub open spec fn op_keys<V>(ops: Seq<(Seq<u8>, V)>) -> Seq<Seq<u8>> {
    ops.map_values(|o: (Seq<u8>, V)| o.0)
}

/// After any run of insertions from the empty map, each key inserted holds the value
/// of its latest insertion.
pub proof fn lemma_latest_value<V>(ops: Seq<(Seq<u8>, V)>, i: int)
    requires
        0 <= i < ops.len(),
        forall|t: int| i < t < ops.len() ==> (#[trigger] ops[t]).0 != ops[i].0,
    ensures
        apply_inserts(Map::<Seq<u8>, V>::empty(), ops).contains_key(ops[i].0),
        apply_inserts(Map::<Seq<u8>, V>::empty(), ops)[ops[i].0] == ops[i].1,
    decreases ops.len(),
{
    if i < ops.len() - 1 {
        let init = ops.drop_last();
        assert forall|t: int| i < t < init.len() implies (#[trigger] init[t]).0 != init[i].0 by {
            assert(init[t] == ops[t]);
        }
        lemma_latest_value(init, i);
        assert(ops.last() == ops[ops.len() - 1]);
    }
}

/// After `insert(k, v)`, whether or not a migration is under way, looking up `k`
/// finds `v`.
pub proof fn lemma_insert_then_get<K: HashKey, V>(before: HashMap<K, V>, after: HashMap<K, V>, k: K, v: V)
    requires
        after@ == before@.insert(k.key_view(), v),
    ensures
        after@.contains_key(k.key_view()),
        after@[k.key_view()] == v,
{
}

/// Inserting a key a second time leaves the number of keys unchanged, and the key
/// then holds the later value.
pub proof fn lemma_insert_twice<V>(m0: Map<Seq<u8>, V>, k: Seq<u8>, v1: V, v2: V)
    requires
        m0.dom().finite(),
    ensures
        m0.insert(k, v1).insert(k, v2).len() == m0.insert(k, v1).len(),
        m0.insert(k, v1).insert(k, v2)[k] == v2,
{
    assert(m0.insert(k, v1).insert(k, v2).dom() =~= m0.insert(k, v1).dom());
}

/// Starting from the empty map, any run of insertions, fresh keys and overwrites
/// alike, leaves exactly the distinct keys inserted, so the length is their number.
pub proof fn lemma_count_is_distinct_keys<V>(ops: Seq<(Seq<u8>, V)>)
    ensures
        apply_inserts(Map::<Seq<u8>, V>::empty(), ops).dom() == op_keys(ops).to_set(),
        apply_inserts(Map::<Seq<u8>, V>::empty(), ops).len() == op_keys(ops).to_set().len(),
    decreases ops.len(),
{
    if ops.len() == 0 {
        assert(op_keys(ops).to_set() =~= Set::<Seq<u8>>::empty());
    } else {
        let init = ops.drop_last();
        lemma_count_is_distinct_keys(init);
        assert(op_keys(ops) =~= op_keys(init).push(ops.last().0));
        op_keys(init).lemma_push_to_set_commute(ops.last().0);
        assert(apply_inserts(Map::<Seq<u8>, V>::empty(), ops).dom() =~= op_keys(ops).to_set());
    }
}

/// Inserting `n` distinct keys one at a time into the empty map, however many
/// migrations that takes, leaves `n` keys, each with its value.
pub proof fn lemma_distinct_inserts<V>(ops: Seq<(Seq<u8>, V)>)
    requires
        op_keys(ops).no_duplicates(),
    ensures
        apply_inserts(Map::<Seq<u8>, V>::empty(), ops).len() == ops.len(),
        forall|i: int|
            0 <= i < ops.len() ==> apply_inserts(Map::<Seq<u8>, V>::empty(), ops).contains_key(
                (#[trigger] ops[i]).0,
            ) && apply_inserts(Map::<Seq<u8>, V>::empty(), ops)[ops[i].0] == ops[i].1,
    decreases ops.len(),
{
    lemma_count_is_distinct_keys(ops);
    op_keys(ops).unique_seq_to_set();
    if ops.len() > 0 {
        let init = ops.drop_last();
        assert(op_keys(init) =~= op_keys(ops).drop_last());
        lemma_distinct_inserts(init);
        assert forall|i: int| 0 <= i < ops.len() implies apply_inserts(
            Map::<Seq<u8>, V>::empty(),
            ops,
        ).contains_key((#[trigger] ops[i]).0) && apply_inserts(Map::<Seq<u8>, V>::empty(), ops)[ops[i].0]
            == ops[i].1 by {
            if i < ops.len() - 1 {
                assert(init[i] == ops[i]);
                assert(op_keys(ops)[i] != op_keys(ops)[ops.len() - 1]);
            }
        }
    }
}

} // verus!
