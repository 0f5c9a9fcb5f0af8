//! Hashed collections with the exact lookup semantics of .NET's `Dictionary`, `HashSet` and
//! `Enumerable.Distinct`.
//!
//! Keys have a hash code and an equality that need not agree with each other (geometric keys
//! compare within a tolerance but hash rounded coordinates), so which keys are identified
//! depends on how the lookup goes:
//!
//! * a stored key matches a probe when their hash codes (masked to 31 bits) are equal and
//!   `stored.net_eq(probe)` holds;
//! * bucket chains are searched most-recently-inserted first;
//! * enumeration is in insertion order (nothing is ever removed).
use std::collections::HashMap;
use vstd::prelude::*;

verus! {

broadcast use vstd::std_specs::hash::group_hash_axioms;

/// A key with .NET-style hash code and equality.
pub trait NetKey: Sized {
    /// The key's hash code.
    spec fn hash_code(&self) -> i32;

    /// Whether `self`, as the stored key, matches the probe `other`.
    spec fn key_matches(&self, other: &Self) -> bool;

    fn net_hash(&self) -> (r: i32)
        ensures
            r == self.hash_code(),
    ;

    /// `self` plays the role of the stored key, `other` the probe.
    fn net_eq(&self, other: &Self) -> (r: bool)
        ensures
            r == self.key_matches(other),
    ;
}

/// A 64-bit integer key, hashed as .NET's `Int64.GetHashCode` (the low and high halves xored).
impl NetKey for i64 {
    open spec fn hash_code(&self) -> i32 {
        ((*self as u64) as i32) ^ (((*self as u64) >> 32u64) as i32)
    }

    open spec fn key_matches(&self, other: &Self) -> bool {
        *self == *other
    }

    fn net_hash(&self) -> (r: i32) {
        let bits = *self as u64;
        (bits as i32) ^ ((bits >> 32u64) as i32)
    }

    fn net_eq(&self, other: &Self) -> (r: bool) {
        *self == *other
    }
}

/// A hash code with its sign bit cleared.
pub open spec fn masked_code(h: i32) -> i32 {
    h & 0x7FFF_FFFFi32
}

fn masked(h: i32) -> (r: i32)
    ensures
        r == masked_code(h),
{
    h & 0x7FFF_FFFFi32
}

/// Whether the stored key is found by the probe `k`.
pub open spec fn found_by<K: NetKey>(stored: K, k: K) -> bool {
    masked_code(stored.hash_code()) == masked_code(k.hash_code()) && stored.key_matches(&k)
}

/// The newest of the first `n` keys that the probe `k` finds.
pub open spec fn newest_match<K: NetKey>(keys: Seq<K>, k: K, n: int) -> Option<usize>
    decreases n,
{
    if n <= 0 {
        None
    } else if found_by(keys[n - 1], k) {
        Some((n - 1) as usize)
    } else {
        newest_match(keys, k, n - 1)
    }
}

/// The index of the key that the probe `k` finds, if any.
pub open spec fn lookup<K: NetKey>(keys: Seq<K>, k: K) -> Option<usize> {
    newest_match(keys, k, keys.len() as int)
}

/// The keys of a sequence of entries.
pub open spec fn keys_of<K, V>(entries: Seq<(K, V)>) -> Seq<K> {
    entries.map_values(|e: (K, V)| e.0)
}

/// The indices of the first `n` keys whose masked hash code is `h`, ascending.
pub open spec fn bucket_of<K: NetKey>(keys: Seq<K>, h: i32, n: int) -> Seq<usize>
    decreases n,
{
    if n <= 0 {
        Seq::empty()
    } else {
        let prev = bucket_of(keys, h, n - 1);
        if masked_code(keys[n - 1].hash_code()) == h {
            prev.push((n - 1) as usize)
        } else {
            prev
        }
    }
}

/// Searching a bucket newest first.
pub open spec fn bucket_search<K: NetKey>(keys: Seq<K>, k: K, bucket: Seq<usize>) -> Option<usize>
    decreases bucket.len(),
{
    if bucket.len() == 0 {
        None
    } else if keys[bucket.last() as int].key_matches(&k) {
        Some(bucket.last())
    } else {
        bucket_search(keys, k, bucket.drop_last())
    }
}

proof fn lemma_bucket_elems<K: NetKey>(keys: Seq<K>, h: i32, n: int)
    requires
        0 <= n <= keys.len(),
        keys.len() <= usize::MAX,
    ensures
        forall|t: int|
            0 <= t < bucket_of(keys, h, n).len() ==> (#[trigger] bucket_of(keys, h, n)[t] < n
                && masked_code(keys[bucket_of(keys, h, n)[t] as int].hash_code()) == h),
    decreases n,
{
    if n > 0 {
        lemma_bucket_elems(keys, h, n - 1);
        let prev = bucket_of(keys, h, n - 1);
        assert forall|t: int| 0 <= t < bucket_of(keys, h, n).len() implies (#[trigger] bucket_of(
            keys,
            h,
            n,
        )[t] < n && masked_code(keys[bucket_of(keys, h, n)[t] as int].hash_code()) == h) by {
            if t < prev.len() {
                assert(bucket_of(keys, h, n)[t] == prev[t]);
            }
        }
    }
}

/// Searching the bucket of the probe's hash code finds what a search of all keys finds.
proof fn lemma_bucket_search<K: NetKey>(keys: Seq<K>, k: K, n: int)
    requires
        0 <= n <= keys.len(),
        keys.len() <= usize::MAX,
    ensures
        bucket_search(keys, k, bucket_of(keys, masked_code(k.hash_code()), n)) == newest_match(keys, k, n),
    decreases n,
{
    if n > 0 {
        lemma_bucket_search(keys, k, n - 1);
        let h = masked_code(k.hash_code());
        let b = bucket_of(keys, h, n);
        if masked_code(keys[n - 1].hash_code()) == h {
            assert(b.drop_last() =~= bucket_of(keys, h, n - 1));
            assert(b.last() == (n - 1) as usize);
        }
    }
}

/// The bucket of the first `n` keys depends on those keys alone.
proof fn lemma_bucket_prefix<K: NetKey>(a: Seq<K>, b: Seq<K>, h: i32, n: int)
    requires
        0 <= n <= a.len(),
        n <= b.len(),
        forall|m: int| 0 <= m < n ==> a[m] == b[m],
    ensures
        bucket_of(a, h, n) == bucket_of(b, h, n),
    decreases n,
{
    if n > 0 {
        lemma_bucket_prefix(a, b, h, n - 1);
    }
}

/// The match among the first `n` keys depends on those keys alone.
pub proof fn lemma_match_prefix<K: NetKey>(a: Seq<K>, b: Seq<K>, k: K, n: int)
    requires
        0 <= n <= a.len(),
        n <= b.len(),
        forall|m: int| 0 <= m < n ==> a[m] == b[m],
    ensures
        newest_match(a, k, n) == newest_match(b, k, n),
    decreases n,
{
    if n > 0 {
        lemma_match_prefix(a, b, k, n - 1);
    }
}

/// The newest match is one of the keys, and it is found by the probe.
pub proof fn lemma_match_found<K: NetKey>(keys: Seq<K>, k: K, n: int)
    requires
        0 <= n <= keys.len(),
        keys.len() <= usize::MAX,
    ensures
        newest_match(keys, k, n) matches Some(i) ==> (i < n && found_by(keys[i as int], k)
            && forall|m: int| i < m < n ==> !found_by(#[trigger] keys[m], k)),
        newest_match(keys, k, n) is None ==> forall|m: int|
            0 <= m < n ==> !found_by(#[trigger] keys[m], k),
    decreases n,
{
    if n > 0 {
        lemma_match_found(keys, k, n - 1);
    }
}

/// An insertion-ordered map with .NET `Dictionary` lookup semantics.
pub struct NetMap<K, V> {
    entries: Vec<(K, V)>,
    buckets: HashMap<i32, Vec<usize>>,
}

/// The indices stored for a hash code (none if it has no bucket).
pub open spec fn bucket_at(buckets: Map<i32, Vec<usize>>, h: i32) -> Seq<usize> {
    if buckets.contains_key(h) {
        buckets[h]@
    } else {
        Seq::empty()
    }
}

impl<K, V> View for NetMap<K, V> {
    type V = Seq<(K, V)>;

    closed spec fn view(&self) -> Seq<(K, V)> {
        self.entries@
    }
}

impl<K: NetKey, V> NetMap<K, V> {
    /// Each hash code's bucket lists the entries with that (masked) hash code, oldest first.
    pub closed spec fn wf(&self) -> bool {
        forall|h: i32| #[trigger]
            bucket_at(self.buckets@, h) == bucket_of(
                keys_of(self.entries@),
                h,
                self.entries@.len() as int,
            )
    }

    pub fn new() -> (r: Self)
        ensures
            r.wf(),
            r@ == Seq::<(K, V)>::empty(),
    {
        NetMap { entries: Vec::new(), buckets: HashMap::new() }
    }

    pub fn len(&self) -> (r: usize)
        ensures
            r == self@.len(),
    {
        self.entries.len()
    }

    pub fn is_empty(&self) -> (r: bool)
        ensures
            r == (self@.len() == 0),
    {
        self.entries.len() == 0
    }

    pub fn clear(&mut self)
        ensures
            final(self).wf(),
            final(self)@ == Seq::<(K, V)>::empty(),
    {
        self.entries.clear();
        self.buckets.clear();
    }

    /// The insertion index of the entry matching `k`.
    pub fn index_of(&self, k: &K) -> (r: Option<usize>)
        requires
            self.wf(),
        ensures
            r == lookup(keys_of(self@), *k),
    {
        let ghost keys = keys_of(self.entries@);
        let ghost n = self.entries@.len() as int;
        let n_entries = self.entries.len();
        let h = masked(k.net_hash());
        proof {
            assert(keys.len() == n_entries);
            lemma_bucket_search(keys, *k, n);
            lemma_bucket_elems(keys, h, n);
            assert(bucket_at(self.buckets@, h) == bucket_of(keys, h, n));
        }
        match self.buckets.get(&h) {
            None => None,
            Some(b) => {
                let mut j = b.len();
                assert(b@.take(j as int) =~= b@);
                while j > 0
                    invariant
                        j <= b@.len(),
                        b@ == bucket_of(keys, h, n),
                        keys == keys_of(self.entries@),
                        n == self.entries@.len(),
                        h == masked_code(k.hash_code()),
                        forall|t: int|
                            0 <= t < b@.len() ==> (#[trigger] b@[t] < n && masked_code(
                                keys[b@[t] as int].hash_code(),
                            ) == h),
                        newest_match(keys, *k, n) == bucket_search(keys, *k, b@.take(j as int)),
                    decreases j,
                {
                    let i = b[j - 1];
                    assert(b@.take(j as int).drop_last() =~= b@.take(j - 1));
                    assert(b@.take(j as int).last() == i);
                    if self.entries[i].0.net_eq(k) {
                        return Some(i);
                    }
                    j = j - 1;
                }
                None
            },
        }
    }

    pub fn contains_key(&self, k: &K) -> (r: bool)
        requires
            self.wf(),
        ensures
            r == lookup(keys_of(self@), *k) is Some,
    {
        self.index_of(k).is_some()
    }

    pub fn get(&self, k: &K) -> (r: Option<&V>)
        requires
            self.wf(),
        ensures
            match lookup(keys_of(self@), *k) {
                Some(i) => (r matches Some(v) && *v == self@[i as int].1),
                None => r is None,
            },
    {
        let n_entries = self.entries.len();
        proof {
            assert(keys_of(self@).len() == n_entries);
            lemma_match_found(keys_of(self@), *k, self@.len() as int);
        }
        match self.index_of(k) {
            Some(i) => Some(&self.entries[i].1),
            None => None,
        }
    }

    pub fn get_mut(&mut self, k: &K) -> (r: Option<&mut V>)
        requires
            old(self).wf(),
        ensures
            final(self).wf(),
            match lookup(keys_of(old(self)@), *k) {
                Some(i) => (r matches Some(v) && *v == old(self)@[i as int].1 && final(self)@
                    == old(self)@.update(i as int, (old(self)@[i as int].0, *final(v)))),
                None => r is None && final(self)@ == old(self)@,
            },
    {
        let n_entries = self.entries.len();
        proof {
            assert(keys_of(self@).len() == n_entries);
            lemma_match_found(keys_of(self@), *k, self@.len() as int);
        }
        match self.index_of(k) {
            Some(i) => {
                proof {
                    let e = self.entries@;
                    assert forall|s: Seq<(K, V)>|
                        s.len() == e.len() && s[i as int].0 == e[i as int].0 && (forall|m: int|
                            0 <= m < e.len() && m != i ==> s[m] == e[m]) implies #[trigger] keys_of(s)
                        == keys_of(e) by {
                        assert(keys_of(s) =~= keys_of(e));
                    }
                }
                Some(&mut self.entries[i].1)
            },
            None => None,
        }
    }

    /// The value at `k`'s entry, adding an entry with `f()` first if there is none.
    pub fn get_or_insert_with<F: FnOnce() -> V>(&mut self, k: K, f: F) -> (r: &mut V)
        requires
            old(self).wf(),
            f.requires(()),
        ensures
            final(self).wf(),
            match lookup(keys_of(old(self)@), k) {
                Some(i) => *r == old(self)@[i as int].1 && final(self)@ == old(self)@.update(
                    i as int,
                    (old(self)@[i as int].0, *final(r)),
                ),
                None => f.ensures((), *r) && final(self)@ == old(self)@.push((k, *final(r))),
            },
    {
        let n_entries = self.entries.len();
        proof {
            assert(keys_of(self@).len() == n_entries);
            lemma_match_found(keys_of(self@), k, self@.len() as int);
        }
        let i = match self.index_of(&k) {
            Some(i) => i,
            None => {
                let v = f();
                self.push(k, v)
            },
        };
        proof {
            let e = self.entries@;
            assert forall|s: Seq<(K, V)>|
                s.len() == e.len() && s[i as int].0 == e[i as int].0 && (forall|m: int|
                    0 <= m < e.len() && m != i ==> s[m] == e[m]) implies #[trigger] keys_of(s)
                == keys_of(e) by {
                assert(keys_of(s) =~= keys_of(e));
            }
        }
        &mut self.entries[i].1
    }

    fn push(&mut self, k: K, value: V) -> (r: usize)
        requires
            old(self).wf(),
        ensures
            final(self).wf(),
            final(self)@ == old(self)@.push((k, value)),
            r == old(self)@.len(),
    {
        let ghost old_keys = keys_of(self.entries@);
        let ghost n = self.entries@.len() as int;
        let i = self.entries.len();
        let h = masked(k.net_hash());
        let mut b = match self.buckets.remove(&h) {
            Some(b) => b,
            None => Vec::new(),
        };
        assert(b@ == bucket_of(old_keys, h, n)) by {
            assert(bucket_at(old(self).buckets@, h) == bucket_of(old_keys, h, n));
        }
        b.push(i);
        self.buckets.insert(h, b);
        self.entries.push((k, value));
        proof {
            let keys = keys_of(self.entries@);
            assert(keys =~= old_keys.push(k));
            assert forall|h2: i32| #[trigger]
                bucket_at(self.buckets@, h2) == bucket_of(keys, h2, n + 1) by {
                lemma_bucket_prefix(old_keys, keys, h2, n);
                if h2 != h {
                    assert(bucket_at(self.buckets@, h2) == bucket_at(old(self).buckets@, h2));
                    assert(bucket_at(old(self).buckets@, h2) == bucket_of(old_keys, h2, n));
                }
            }
        }
        i
    }

    /// Sets the value at `k`'s entry, or adds an entry: an existing entry keeps its first key
    /// and its position. Returns the entry's index.
    pub fn insert(&mut self, k: K, value: V) -> (r: usize)
        requires
            old(self).wf(),
        ensures
            final(self).wf(),
            match lookup(keys_of(old(self)@), k) {
                Some(i) => r == i && final(self)@ == old(self)@.update(
                    i as int,
                    (old(self)@[i as int].0, value),
                ),
                None => r == old(self)@.len() && final(self)@ == old(self)@.push((k, value)),
            },
    {
        let n_entries = self.entries.len();
        proof {
            assert(keys_of(self@).len() == n_entries);
            lemma_match_found(keys_of(self@), k, self@.len() as int);
        }
        match self.index_of(&k) {
            Some(i) => {
                let ghost old_keys = keys_of(self.entries@);
                let ghost n = self.entries@.len() as int;
                self.entries[i].1 = value;
                proof {
                    let keys = keys_of(self.entries@);
                    assert(keys =~= old_keys);
                    assert forall|h2: i32| #[trigger]
                        bucket_at(self.buckets@, h2) == bucket_of(keys, h2, n) by {
                        assert(bucket_at(old(self).buckets@, h2) == bucket_of(old_keys, h2, n));
                    }
                }
                i
            },
            None => self.push(k, value),
        }
    }

    /// Adds an entry unless the key is already present (leaving the map unchanged). Returns
    /// whether it was added.
    pub fn try_add(&mut self, k: K, value: V) -> (r: bool)
        requires
            old(self).wf(),
        ensures
            final(self).wf(),
            r == lookup(keys_of(old(self)@), k) is None,
            r ==> final(self)@ == old(self)@.push((k, value)),
            !r ==> final(self)@ == old(self)@,
    {
        if self.contains_key(&k) {
            return false;
        }
        self.push(k, value);
        true
    }

    /// The value at an insertion index, to change in place (its key stays): how the values are
    /// changed one by one, in insertion order.
    pub fn value_at_mut(&mut self, i: usize) -> (r: &mut V)
        requires
            old(self).wf(),
            i < old(self)@.len(),
        ensures
            final(self).wf(),
            *r == old(self)@[i as int].1,
            final(self)@ == old(self)@.update(i as int, (old(self)@[i as int].0, *final(r))),
    {
        proof {
            let e = self.entries@;
            assert forall|s: Seq<(K, V)>|
                s.len() == e.len() && s[i as int].0 == e[i as int].0 && (forall|m: int|
                    0 <= m < e.len() && m != i ==> s[m] == e[m]) implies #[trigger] keys_of(s)
                == keys_of(e) by {
                assert(keys_of(s) =~= keys_of(e));
            }
        }
        &mut self.entries[i].1
    }

    /// The entry at an insertion index.
    pub fn get_index(&self, i: usize) -> (r: Option<(&K, &V)>)
        ensures
            i < self@.len() ==> (r matches Some(p) && *p.0 == self@[i as int].0 && *p.1
                == self@[i as int].1),
            i >= self@.len() ==> r is None,
    {
        if i < self.entries.len() {
            let e = &self.entries[i];
            Some((&e.0, &e.1))
        } else {
            None
        }
    }

    /// The entries in insertion order.
    pub fn iter(&self) -> (r: &[(K, V)])
        ensures
            r@ == self@,
    {
        self.entries.as_slice()
    }

    /// The keys in insertion order.
    pub fn keys(&self) -> (r: Vec<&K>)
        ensures
            r@.len() == self@.len(),
            forall|i: int| 0 <= i < r@.len() ==> *#[trigger] r@[i] == self@[i].0,
    {
        let mut r: Vec<&K> = Vec::new();
        let mut i: usize = 0;
        while i < self.entries.len()
            invariant
                0 <= i <= self@.len(),
                r@.len() == i,
                forall|j: int| 0 <= j < i ==> *#[trigger] r@[j] == self@[j].0,
            decreases self@.len() - i,
        {
            r.push(&self.entries[i].0);
            i = i + 1;
        }
        r
    }

    /// The values in insertion order.
    pub fn values(&self) -> (r: Vec<&V>)
        ensures
            r@.len() == self@.len(),
            forall|i: int| 0 <= i < r@.len() ==> *#[trigger] r@[i] == self@[i].1,
    {
        let mut r: Vec<&V> = Vec::new();
        let mut i: usize = 0;
        while i < self.entries.len()
            invariant
                0 <= i <= self@.len(),
                r@.len() == i,
                forall|j: int| 0 <= j < i ==> *#[trigger] r@[j] == self@[j].1,
            decreases self@.len() - i,
        {
            r.push(&self.entries[i].1);
            i = i + 1;
        }
        r
    }

    /// The entries, in insertion order.
    pub fn into_entries(self) -> (r: Vec<(K, V)>)
        ensures
            r@ == self@,
    {
        self.entries
    }
}

impl<K: NetKey, V> Default for NetMap<K, V> {
    fn default() -> (r: Self)
        ensures
            r.wf(),
            r@ == Seq::<(K, V)>::empty(),
    {
        NetMap::new()
    }
}

/// The first of each group of items that a set keeps: an item is kept unless a kept item
/// before it is found by it.
pub open spec fn distinct_of<K: NetKey>(items: Seq<K>) -> Seq<K>
    decreases items.len(),
{
    if items.len() == 0 {
        Seq::empty()
    } else {
        let prev = distinct_of(items.drop_last());
        if lookup(prev, items.last()) is Some {
            prev
        } else {
            prev.push(items.last())
        }
    }
}

/// `distinct` keeps the first item, keeps no item that an earlier kept item would find, and
/// keeps no more items than it was given.
pub proof fn lemma_distinct_keeps_first<K: NetKey>(items: Seq<K>)
    ensures
        items.len() > 0 ==> distinct_of(items).len() > 0 && distinct_of(items)[0] == items[0],
        distinct_of(items).len() <= items.len(),
        forall|j: int|
            0 <= j < distinct_of(items).len() ==> lookup(
                distinct_of(items).take(j),
                #[trigger] distinct_of(items)[j],
            ) is None,
    decreases items.len(),
{
    if items.len() > 0 {
        let prev = distinct_of(items.drop_last());
        lemma_distinct_keeps_first(items.drop_last());
        let r = distinct_of(items);
        if items.len() == 1 {
            assert(items.drop_last().len() == 0);
            assert(prev =~= Seq::<K>::empty());
        } else {
            assert(items.drop_last()[0] == items[0]);
        }
        assert forall|j: int| 0 <= j < r.len() implies lookup(r.take(j), #[trigger] r[j]) is None by {
            if j < prev.len() {
                assert(r.take(j) =~= prev.take(j));
                assert(r[j] == prev[j]);
            } else {
                assert(r.take(j) =~= prev);
            }
        }
    }
}

/// An insertion-ordered set with .NET `HashSet` semantics.
pub struct NetSet<K> {
    map: NetMap<K, ()>,
}

impl<K> View for NetSet<K> {
    type V = Seq<K>;

    closed spec fn view(&self) -> Seq<K> {
        keys_of(self.map@)
    }
}

impl<K: NetKey> NetSet<K> {
    pub closed spec fn wf(&self) -> bool {
        self.map.wf()
    }

    pub fn new() -> (r: Self)
        ensures
            r.wf(),
            r@ == Seq::<K>::empty(),
    {
        let r = NetSet { map: NetMap::new() };
        assert(r@ =~= Seq::<K>::empty());
        r
    }

    /// Adds an item unless it is already present. Returns true if it was added.
    pub fn insert(&mut self, k: K) -> (r: bool)
        requires
            old(self).wf(),
        ensures
            final(self).wf(),
            r == lookup(old(self)@, k) is None,
            r ==> final(self)@ == old(self)@.push(k),
            !r ==> final(self)@ == old(self)@,
    {
        let ghost before = self.map@;
        let r = self.map.try_add(k, ());
        proof {
            if r {
                assert(keys_of(before.push((k, ()))) =~= keys_of(before).push(k));
            }
        }
        r
    }

    pub fn contains(&self, k: &K) -> (r: bool)
        requires
            self.wf(),
        ensures
            r == lookup(self@, *k) is Some,
    {
        self.map.contains_key(k)
    }

    pub fn len(&self) -> (r: usize)
        ensures
            r == self@.len(),
    {
        self.map.len()
    }

    pub fn is_empty(&self) -> (r: bool)
        ensures
            r == (self@.len() == 0),
    {
        self.map.is_empty()
    }

    pub fn clear(&mut self)
        ensures
            final(self).wf(),
            final(self)@ == Seq::<K>::empty(),
    {
        self.map.clear();
        assert(final(self)@ =~= Seq::<K>::empty());
    }

    /// The items in insertion order.
    pub fn iter(&self) -> (r: Vec<&K>)
        ensures
            r@.len() == self@.len(),
            forall|i: int| 0 <= i < r@.len() ==> *#[trigger] r@[i] == self@[i],
    {
        self.map.keys()
    }

    /// The items in insertion order.
    pub fn into_vec(self) -> (r: Vec<K>)
        ensures
            r@ == self@,
    {
        let entries = self.map.into_entries();
        let ghost all = entries@;
        let mut r: Vec<K> = Vec::new();
        for e in it: entries.into_iter()
            invariant
                all == it.seq(),
                r@ == keys_of(all.take(it.index() as int)),
        {
            assert(keys_of(all.take(it.index() + 1)) =~= keys_of(all.take(it.index() as int)).push(
                e.0,
            ));
            r.push(e.0);
        }
        assert(all.take(all.len() as int) =~= all);
        r
    }

    /// A set of the items, each added in turn.
    pub fn from_vec(items: Vec<K>) -> (r: Self)
        ensures
            r.wf(),
            r@ == distinct_of(items@),
    {
        let ghost all = items@;
        let mut set = NetSet::new();
        for k in it: items.into_iter()
            invariant
                all == it.seq(),
                set.wf(),
                set@ == distinct_of(all.take(it.index() as int)),
        {
            assert(all.take(it.index() + 1).drop_last() =~= all.take(it.index() as int));
            set.insert(k);
        }
        assert(all.take(all.len() as int) =~= all);
        set
    }
}

impl<K: NetKey> Default for NetSet<K> {
    fn default() -> (r: Self)
        ensures
            r.wf(),
            r@ == Seq::<K>::empty(),
    {
        NetSet::new()
    }
}

/// `Enumerable.Distinct`: keeps the first of each group of equal items, in order.
pub fn distinct<K: NetKey>(items: Vec<K>) -> (r: Vec<K>)
    ensures
        r@ == distinct_of(items@),
{
    NetSet::from_vec(items).into_vec()
}

} // verus!
