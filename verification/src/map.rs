//! A key-value map with separate chaining, with an API close to
//! `std::collections::HashMap`.
//!
//! The map is a table of buckets; a key lives in the bucket given by its
//! digest modulo the number of buckets. When the table is more than 70% full
//! (entries over buckets) it doubles and every entry is filed again.
use vstd::prelude::*;
use vstd::string::StringSliceAdditionalSpecFns;

verus! {

broadcast use vstd::utf8::group_utf8_lib;

// Each name below is what `Hash::hash` of a key into a fresh
// `std::hash::DefaultHasher`, then `finish`, gives. `DefaultHasher::new` is
// documented to make identical hashers that produce identical hashes for the
// same input, so the digest is a function of the key on the target that the
// crate is built for (integers are fed in that target's byte order, and a
// `usize` at its width). Nothing is claimed about the values themselves.
/// Digest of a `u32` key.
pub uninterp spec fn default_hash_u32(key: u32) -> u64;

/// Digest of an `i32` key.
pub uninterp spec fn default_hash_i32(key: i32) -> u64;

/// Digest of a `u64` key.
pub uninterp spec fn default_hash_u64(key: u64) -> u64;

/// Digest of a `usize` key.
pub uninterp spec fn default_hash_usize(key: usize) -> u64;

/// Digest of a `str` key (its UTF-8 bytes, then the byte `0xFF`, as
/// `Hasher::write_str` feeds them), as a function of its characters.
pub uninterp spec fn default_hash_str(key: Seq<char>) -> u64;

/// `BuildHasher::hash_one` with the default hasher on a `u32`: documented as
/// `DefaultHasher::new()`, `Hash::hash`, `finish`. Trusted: the digest is
/// claimed to be `default_hash_u32` of the key, nothing more.
#[verifier::external_body]
fn hash_u32(key: u32) -> (h: u64)
    ensures
        h == default_hash_u32(key),
{
    std::hash::BuildHasher::hash_one(&std::hash::BuildHasherDefault::<std::hash::DefaultHasher>::default(), key)
}

/// As [`hash_u32`], on an `i32`; the digest is claimed to be
/// `default_hash_i32` of the key, nothing more.
#[verifier::external_body]
fn hash_i32(key: i32) -> (h: u64)
    ensures
        h == default_hash_i32(key),
{
    std::hash::BuildHasher::hash_one(&std::hash::BuildHasherDefault::<std::hash::DefaultHasher>::default(), key)
}

/// As [`hash_u32`], on a `u64`; the digest is claimed to be
/// `default_hash_u64` of the key, nothing more.
#[verifier::external_body]
fn hash_u64(key: u64) -> (h: u64)
    ensures
        h == default_hash_u64(key),
{
    std::hash::BuildHasher::hash_one(&std::hash::BuildHasherDefault::<std::hash::DefaultHasher>::default(), key)
}

/// As [`hash_u32`], on a `usize`; the digest is claimed to be
/// `default_hash_usize` of the key, nothing more.
#[verifier::external_body]
fn hash_usize(key: usize) -> (h: u64)
    ensures
        h == default_hash_usize(key),
{
    std::hash::BuildHasher::hash_one(&std::hash::BuildHasherDefault::<std::hash::DefaultHasher>::default(), key)
}

/// As [`hash_u32`], on a string (hashed as `str`, like a `&str` key); the
/// digest is claimed to be `default_hash_str` of its characters, nothing more.
#[verifier::external_body]
fn hash_str(key: &str) -> (h: u64)
    ensures
        h == default_hash_str(key@),
{
    std::hash::BuildHasher::hash_one(&std::hash::BuildHasherDefault::<std::hash::DefaultHasher>::default(), key)
}

/// A type that can key a [`HashMap`]: it has a digest that is a function of
/// its view, and an equality test that agrees with equality of views.
pub trait MapKey: View + Sized {
    /// The digest of a key, as a function of its view.
    spec fn digest_of(key: Self::V) -> u64;

    fn digest(&self) -> (h: u64)
        ensures
            h == Self::digest_of(self@),
    ;

    fn same_key(&self, other: &Self) -> (b: bool)
        ensures
            b == (self@ == other@),
    ;
}

impl MapKey for u32 {
    open spec fn digest_of(key: u32) -> u64 {
        default_hash_u32(key)
    }

    fn digest(&self) -> (h: u64) {
        hash_u32(*self)
    }

    fn same_key(&self, other: &Self) -> (b: bool) {
        *self == *other
    }
}

impl MapKey for i32 {
    open spec fn digest_of(key: i32) -> u64 {
        default_hash_i32(key)
    }

    fn digest(&self) -> (h: u64) {
        hash_i32(*self)
    }

    fn same_key(&self, other: &Self) -> (b: bool) {
        *self == *other
    }
}

impl MapKey for u64 {
    open spec fn digest_of(key: u64) -> u64 {
        default_hash_u64(key)
    }

    fn digest(&self) -> (h: u64) {
        hash_u64(*self)
    }

    fn same_key(&self, other: &Self) -> (b: bool) {
        *self == *other
    }
}

impl MapKey for usize {
    open spec fn digest_of(key: usize) -> u64 {
        default_hash_usize(key)
    }

    fn digest(&self) -> (h: u64) {
        hash_usize(*self)
    }

    fn same_key(&self, other: &Self) -> (b: bool) {
        *self == *other
    }
}

/// True when two strings are equal, compared byte by byte.
fn str_equal(a: &str, b: &str) -> (r: bool)
    ensures
        r == (a@ == b@),
{
    let x = a.as_bytes();
    let y = b.as_bytes();
    proof {
        vstd::utf8::encode_utf8_decode_utf8(a@);
        vstd::utf8::encode_utf8_decode_utf8(b@);
    }
    if x.len() != y.len() {
        return false;
    }
    let mut i: usize = 0;
    while i < x.len()
        invariant
            x@ == a.spec_bytes(),
            y@ == b.spec_bytes(),
            x@.len() == y@.len(),
            i <= x@.len(),
            forall|j: int| 0 <= j < i ==> x@[j] == y@[j],
        decreases x@.len() - i,
    {
        if x[i] != y[i] {
            return false;
        }
        i += 1;
    }
    assert(x@ =~= y@);
    true
}

impl<'a> MapKey for &'a str {
    open spec fn digest_of(key: Seq<char>) -> u64 {
        default_hash_str(key)
    }

    fn digest(&self) -> (h: u64) {
        hash_str(*self)
    }

    fn same_key(&self, other: &Self) -> (b: bool) {
        str_equal(*self, *other)
    }
}

/// A type `Q` by which a map keyed by `Self` can be searched (as `K: Borrow<Q>`
/// lets `std` maps be searched by `&Q`): a `Q` stands for the key view
/// `probe_view`, has that key's digest, and is matched against keys by view.
pub trait KeyLike<Q: ?Sized>: MapKey {
    /// The key view that `q` stands for.
    spec fn probe_view(q: &Q) -> Self::V;

    fn probe_digest(q: &Q) -> (h: u64)
        ensures
            h == Self::digest_of(Self::probe_view(q)),
    ;

    fn matches(&self, q: &Q) -> (b: bool)
        ensures
            b == (self@ == Self::probe_view(q)),
    ;
}

impl<K: MapKey> KeyLike<K> for K {
    open spec fn probe_view(q: &K) -> K::V {
        q@
    }

    fn probe_digest(q: &K) -> (h: u64) {
        q.digest()
    }

    fn matches(&self, q: &K) -> (b: bool) {
        self.same_key(q)
    }
}

impl<'a> KeyLike<str> for &'a str {
    open spec fn probe_view(q: &str) -> Seq<char> {
        q@
    }

    fn probe_digest(q: &str) -> (h: u64) {
        hash_str(q)
    }

    fn matches(&self, q: &str) -> (b: bool) {
        str_equal(*self, q)
    }
}

/// The bucket that a key with view `k` belongs to in a table of `n` buckets.
pub open spec fn slot_of<K: MapKey>(k: K::V, n: nat) -> int {
    ((K::digest_of(k) as usize) as int) % (n as int)
}

/// The view of the key stored at position `i` of bucket `b`.
pub open spec fn key_at<K: MapKey, V>(table: Seq<Vec<(K, V)>>, b: int, i: int) -> K::V {
    table[b]@[i].0@
}

/// Every entry of `table` sits in the bucket of its key and agrees with `m`;
/// no bucket holds a key twice; every key of `m` has an entry in its bucket.
pub open spec fn table_holds<K: MapKey, V>(table: Seq<Vec<(K, V)>>, m: Map<K::V, (K, V)>) -> bool {
    &&& forall|b: int, i: int|
        0 <= b < table.len() && 0 <= i < table[b]@.len() ==> {
            &&& slot_of::<K>(#[trigger] key_at(table, b, i), table.len()) == b
            &&& m.contains_key(key_at(table, b, i))
            &&& m[key_at(table, b, i)] == table[b]@[i]
        }
    &&& forall|b: int, i: int, j: int|
        0 <= b < table.len() && 0 <= i < table[b]@.len() && 0 <= j < table[b]@.len() && i != j
            ==> #[trigger] key_at(table, b, i) != #[trigger] key_at(table, b, j)
    &&& forall|k: K::V|
        #[trigger] m.contains_key(k) ==> exists|i: int|
            0 <= i < table[slot_of::<K>(k, table.len())]@.len() && #[trigger] key_at(
                table,
                slot_of::<K>(k, table.len()),
                i,
            ) == k
}

/// Appends `e` to bucket `idx` of `buckets`.
fn push_into<T>(buckets: &mut Vec<Vec<T>>, idx: usize, e: T)
    requires
        idx < old(buckets)@.len(),
    ensures
        final(buckets)@.len() == old(buckets)@.len(),
        forall|b: int| 0 <= b < old(buckets)@.len() && b != idx ==> final(buckets)@[b] == old(buckets)@[b],
        final(buckets)@[idx as int]@ == old(buckets)@[idx as int]@.push(e),
{
    buckets[idx].push(e);
}

/// Puts `v` as the value of entry `j` of bucket `idx` and returns the value it held.
fn replace_value<A, B>(buckets: &mut Vec<Vec<(A, B)>>, idx: usize, j: usize, v: B) -> (r: B)
    requires
        idx < old(buckets)@.len(),
        j < old(buckets)@[idx as int]@.len(),
    ensures
        r == old(buckets)@[idx as int]@[j as int].1,
        final(buckets)@.len() == old(buckets)@.len(),
        forall|b: int| 0 <= b < old(buckets)@.len() && b != idx ==> final(buckets)@[b] == old(buckets)@[b],
        final(buckets)@[idx as int]@ == old(buckets)@[idx as int]@.update(
            j as int,
            (old(buckets)@[idx as int]@[j as int].0, v),
        ),
{
    let mut v = v;
    std::mem::swap(&mut buckets[idx][j].1, &mut v);
    v
}

/// A table of `n` empty buckets.
fn empty_table<K, V>(n: usize) -> (table: Vec<Vec<(K, V)>>)
    ensures
        table@.len() == n,
        forall|b: int| 0 <= b < n ==> (#[trigger] table@[b])@.len() == 0,
{
    let mut table: Vec<Vec<(K, V)>> = Vec::new();
    let mut i: usize = 0;
    while i < n
        invariant
            i <= n,
            table@.len() == i,
            forall|b: int| 0 <= b < i ==> (#[trigger] table@[b])@.len() == 0,
        decreases n - i,
    {
        table.push(Vec::new());
        i += 1;
    }
    table
}

/// Appending an entry whose key is new to the bucket of that key keeps the
/// table filing exactly the map, with the entry added.
proof fn lemma_table_push<K: MapKey, V>(
    t1: Seq<Vec<(K, V)>>,
    t2: Seq<Vec<(K, V)>>,
    m: Map<K::V, (K, V)>,
    idx: int,
    e: (K, V),
)
    requires
        table_holds(t1, m),
        t1.len() > 0,
        !m.contains_key(e.0@),
        idx == slot_of::<K>(e.0@, t1.len()),
        t2.len() == t1.len(),
        forall|b: int| 0 <= b < t1.len() && b != idx ==> t2[b] == t1[b],
        t2[idx]@ == t1[idx]@.push(e),
    ensures
        table_holds(t2, m.insert(e.0@, e)),
{
    let m2 = m.insert(e.0@, e);
    let last = t1[idx]@.len() as int;
    assert(key_at(t2, idx, last) == e.0@);
    assert forall|b: int, i: int| 0 <= b < t2.len() && 0 <= i < t2[b]@.len() implies {
        &&& slot_of::<K>(#[trigger] key_at(t2, b, i), t2.len()) == b
        &&& m2.contains_key(key_at(t2, b, i))
        &&& m2[key_at(t2, b, i)] == t2[b]@[i]
    } by {
        if b == idx && i < last {
            assert(key_at(t2, b, i) == key_at(t1, b, i));
        } else if b != idx {
            assert(key_at(t2, b, i) == key_at(t1, b, i));
        }
    }
    assert forall|b: int, i: int, j: int|
        0 <= b < t2.len() && 0 <= i < t2[b]@.len() && 0 <= j < t2[b]@.len() && i != j
        implies #[trigger] key_at(t2, b, i) != #[trigger] key_at(t2, b, j) by {
        if b == idx {
            if i < last {
                assert(key_at(t2, b, i) == key_at(t1, b, i));
            }
            if j < last {
                assert(key_at(t2, b, j) == key_at(t1, b, j));
            }
        } else {
            assert(key_at(t2, b, i) == key_at(t1, b, i));
            assert(key_at(t2, b, j) == key_at(t1, b, j));
        }
    }
    assert forall|k: K::V| #[trigger] m2.contains_key(k) implies exists|i: int|
        0 <= i < t2[slot_of::<K>(k, t2.len())]@.len() && #[trigger] key_at(
            t2,
            slot_of::<K>(k, t2.len()),
            i,
        ) == k by {
        if k == e.0@ {
            assert(key_at(t2, idx, last) == k);
        } else {
            assert(m.contains_key(k));
            let s = slot_of::<K>(k, t1.len());
            let i = choose|i: int| 0 <= i < t1[s]@.len() && #[trigger] key_at(t1, s, i) == k;
            assert(key_at(t2, s, i) == key_at(t1, s, i));
        }
    }
}

/// Replacing the value of an entry keeps the table filing exactly the map,
/// with that key's value replaced.
proof fn lemma_table_set_value<K: MapKey, V>(
    t1: Seq<Vec<(K, V)>>,
    t2: Seq<Vec<(K, V)>>,
    m: Map<K::V, (K, V)>,
    idx: int,
    j: int,
    v: V,
)
    requires
        table_holds(t1, m),
        t1.len() > 0,
        0 <= idx < t1.len(),
        0 <= j < t1[idx]@.len(),
        t2.len() == t1.len(),
        forall|b: int| 0 <= b < t1.len() && b != idx ==> t2[b] == t1[b],
        t2[idx]@ == t1[idx]@.update(j, (t1[idx]@[j].0, v)),
    ensures
        table_holds(t2, m.insert(key_at(t1, idx, j), (t1[idx]@[j].0, v))),
{
    let k0 = key_at(t1, idx, j);
    let m2 = m.insert(k0, (t1[idx]@[j].0, v));
    assert forall|b: int, i: int| 0 <= b < t2.len() && 0 <= i < t2[b]@.len() implies
        key_at(t2, b, i) == key_at(t1, b, i) by {}
    assert(m2.dom() =~= m.dom());
    assert forall|b: int, i: int| 0 <= b < t2.len() && 0 <= i < t2[b]@.len() implies {
        &&& slot_of::<K>(#[trigger] key_at(t2, b, i), t2.len()) == b
        &&& m2.contains_key(key_at(t2, b, i))
        &&& m2[key_at(t2, b, i)] == t2[b]@[i]
    } by {
        assert(key_at(t2, b, i) == key_at(t1, b, i));
        if b == idx && i != j {
            assert(key_at(t1, b, i) != key_at(t1, b, j));
        }
    }
    assert forall|b: int, i: int, jj: int|
        0 <= b < t2.len() && 0 <= i < t2[b]@.len() && 0 <= jj < t2[b]@.len() && i != jj
        implies #[trigger] key_at(t2, b, i) != #[trigger] key_at(t2, b, jj) by {
        assert(key_at(t2, b, i) == key_at(t1, b, i));
        assert(key_at(t2, b, jj) == key_at(t1, b, jj));
    }
    assert forall|k: K::V| #[trigger] m2.contains_key(k) implies exists|i: int|
        0 <= i < t2[slot_of::<K>(k, t2.len())]@.len() && #[trigger] key_at(
            t2,
            slot_of::<K>(k, t2.len()),
            i,
        ) == k by {
        assert(m.contains_key(k));
        let s = slot_of::<K>(k, t1.len());
        let i = choose|i: int| 0 <= i < t1[s]@.len() && #[trigger] key_at(t1, s, i) == k;
        assert(key_at(t2, s, i) == key_at(t1, s, i));
    }
}

/// More than 70% of a table of `n` buckets is used by `len` entries.
pub open spec fn over_loaded(len: nat, n: nat) -> bool {
    10 * len > 7 * n
}

/// The number of buckets after one insertion into a map of `len` entries
/// and `n` buckets: doubled when the table is over its load factor (and the
/// doubled count is representable), unchanged otherwise.
pub open spec fn grown_capacity(len: nat, n: nat) -> nat {
    if over_loaded(len, n) && n * 2 <= usize::MAX {
        n * 2
    } else {
        n
    }
}

/// At most about 70% of a table of `n` buckets is used by `len` entries:
/// the load factor is checked before each insertion, so it can be passed by
/// the one entry inserted after the check.
pub open spec fn load_within(len: nat, n: nat) -> bool {
    10 * len <= 7 * n + 10
}

/// `n` is the initial number of buckets, doubled some number of times.
pub open spec fn doubled_from_initial(n: nat) -> bool
    decreases n,
{
    if n <= INITIAL_CAPACITY {
        n == INITIAL_CAPACITY
    } else {
        n % 2 == 0 && doubled_from_initial(n / 2)
    }
}

/// Every entry of the buckets `table`, taken as the first buckets of a table
/// of `n`, sits in the bucket of its key and agrees with `m`; no bucket holds
/// a key twice.
pub open spec fn entries_filed<K: MapKey, V>(table: Seq<Vec<(K, V)>>, n: nat, m: Map<K::V, (K, V)>) -> bool {
    &&& forall|b: int, i: int|
        0 <= b < table.len() && 0 <= i < table[b]@.len() ==> {
            &&& slot_of::<K>(#[trigger] key_at(table, b, i), n) == b
            &&& m.contains_key(key_at(table, b, i))
            &&& m[key_at(table, b, i)] == table[b]@[i]
        }
    &&& forall|b: int, i: int, j: int|
        0 <= b < table.len() && 0 <= i < table[b]@.len() && 0 <= j < table[b]@.len() && i != j
            ==> #[trigger] key_at(table, b, i) != #[trigger] key_at(table, b, j)
}

/// The key `k` has an entry in bucket `b` of `table`.
pub open spec fn found_in<K: MapKey, V>(table: Seq<Vec<(K, V)>>, b: int, k: K::V) -> bool {
    exists|i: int| 0 <= i < table[b]@.len() && #[trigger] key_at(table, b, i) == k
}

/// The entries of the single bucket `bucket`, number `b` of a table of `n`,
/// sit in the right bucket, agree with `m` and hold no key twice.
pub open spec fn bucket_filed<K: MapKey, V>(bucket: Seq<(K, V)>, n: nat, b: int, m: Map<K::V, (K, V)>) -> bool {
    &&& forall|i: int|
        0 <= i < bucket.len() ==> {
            &&& slot_of::<K>(#[trigger] bucket[i].0@, n) == b
            &&& m.contains_key(bucket[i].0@)
            &&& m[bucket[i].0@] == bucket[i]
        }
    &&& forall|i: int, j: int|
        0 <= i < bucket.len() && 0 <= j < bucket.len() && i != j ==> #[trigger] bucket[i].0@
            != #[trigger] bucket[j].0@
}

/// Initial number of buckets.
pub const INITIAL_CAPACITY: usize = 16;

/// A map from keys to values with separate chaining.
#[derive(Clone)]
pub struct HashMap<K: MapKey, V> {
    buckets: Vec<Vec<(K, V)>>,
    len: usize,
    /// The entries by key view.
    entries: Ghost<Map<K::V, (K, V)>>,
}

impl<K: MapKey, V> View for HashMap<K, V> {
    type V = Map<K::V, V>;

    closed spec fn view(&self) -> Map<K::V, V> {
        self.entries@.map_values(|e: (K, V)| e.1)
    }
}

impl<K: MapKey, V> HashMap<K, V> {
    /// The map's internal invariant.
    pub closed spec fn wf(&self) -> bool {
        &&& self.buckets@.len() >= INITIAL_CAPACITY
        &&& self.entries@.dom().finite()
        &&& self.len == self.entries@.dom().len()
        &&& table_holds(self.buckets@, self.entries@)
    }

    /// The key object stored with the key view `k` (the first one inserted
    /// with that view: later insertions replace only the value).
    pub closed spec fn stored_key(&self, k: K::V) -> K {
        self.entries@[k].0
    }

    proof fn lemma_view(&self)
        ensures
            self@.dom() == self.entries@.dom(),
            forall|k: K::V| #[trigger] self.entries@.contains_key(k) ==> self@[k] == self.entries@[k].1,
    {
        assert(self@.dom() =~= self.entries@.dom());
    }

    /// The number of buckets.
    pub closed spec fn capacity(&self) -> nat {
        self.buckets@.len()
    }

    /// An empty map with the initial number of buckets.
    pub fn new() -> (map: Self)
        ensures
            map.wf(),
            map@ == Map::<K::V, V>::empty(),
            map.capacity() == INITIAL_CAPACITY,
            doubled_from_initial(map.capacity()),
            load_within(map@.dom().len(), map.capacity()),
    {
        let buckets = empty_table(INITIAL_CAPACITY);
        let map = HashMap { buckets, len: 0, entries: Ghost(Map::empty()) };
        proof {
            assert(map@ =~= Map::<K::V, V>::empty());
        }
        map
    }

    /// The bucket of `key`.
    fn bucket_index(&self, key: &K) -> (idx: usize)
        requires
            self.buckets@.len() > 0,
        ensures
            idx == slot_of::<K>(key@, self.buckets@.len()),
            idx < self.buckets@.len(),
    {
        let h = key.digest();
        (h as usize) % self.buckets.len()
    }

    /// True when more than 70% of the table is used (entries over buckets).
    fn should_resize(&self) -> (r: bool)
        ensures
            r == over_loaded(self.len as nat, self.buckets@.len()),
    {
        (self.len as u128) * 10 > (self.buckets.len() as u128) * 7
    }

    /// Inserts `value` under `key`; returns the value that was there before,
    /// if any. Before filing the entry the table doubles when it is more than
    /// 70% full.
    pub fn insert(&mut self, key: K, value: V) -> (previous: Option<V>)
        requires
            old(self).wf(),
            old(self)@.dom().len() < usize::MAX,
        ensures
            final(self).wf(),
            final(self)@ == old(self)@.insert(key@, value),
            previous == (if old(self)@.contains_key(key@) {
                Some(old(self)@[key@])
            } else {
                None
            }),
            final(self)@.dom().len() == (if old(self)@.contains_key(key@) {
                old(self)@.dom().len()
            } else {
                old(self)@.dom().len() + 1
            }),
            final(self).stored_key(key@) == (if old(self)@.contains_key(key@) {
                old(self).stored_key(key@)
            } else {
                key
            }),
            forall|k: K::V|
                k != key@ && #[trigger] old(self)@.contains_key(k) ==> final(self).stored_key(k)
                    == old(self).stored_key(k),
            final(self).capacity() == grown_capacity(old(self)@.dom().len(), old(self).capacity()),
            doubled_from_initial(old(self).capacity()) ==> doubled_from_initial(final(self).capacity()),
            load_within(old(self)@.dom().len(), old(self).capacity()) && old(self).capacity() * 2 <= usize::MAX
                ==> load_within(final(self)@.dom().len(), final(self).capacity()),
    {
        proof {
            old(self).lemma_view();
            let n = old(self).capacity();
            if n * 2 <= usize::MAX {
                assert((n * 2) / 2 == n);
                assert((n * 2) % 2 == 0);
            }
        }
        if self.should_resize() && self.buckets.len() <= usize::MAX / 2 {
            self.resize();
        }
        let idx = self.bucket_index(&key);
        let ghost m = self.entries@;
        let mut j: usize = 0;
        while j < self.buckets[idx].len()
            invariant
                self.wf(),
                self.entries@ == m,
                m == old(self).entries@,
                self.buckets@.len() == grown_capacity(old(self)@.dom().len(), old(self).capacity()),
                idx == slot_of::<K>(key@, self.buckets@.len()),
                idx < self.buckets@.len(),
                j <= self.buckets@[idx as int]@.len(),
                forall|jj: int| 0 <= jj < j ==> key_at(self.buckets@, idx as int, jj) != key@,
            decreases self.buckets@[idx as int]@.len() - j,
        {
            if self.buckets[idx][j].0.same_key(&key) {
                let ghost t1 = self.buckets@;
                let ghost v = value;
                let previous = replace_value(&mut self.buckets, idx, j, value);
                proof {
                    lemma_table_set_value(t1, self.buckets@, m, idx as int, j as int, v);
                    self.entries@ = m.insert(key@, (t1[idx as int]@[j as int].0, v));
                    assert(self.entries@.dom() =~= m.dom());
                    self.lemma_view();
                    assert(self@ =~= old(self)@.insert(key@, v));
                }
                return Some(previous);
            }
            j += 1;
        }
        proof {
            if m.contains_key(key@) {
                let i = choose|i: int|
                    0 <= i < self.buckets@[idx as int]@.len() && #[trigger] key_at(
                        self.buckets@,
                        idx as int,
                        i,
                    ) == key@;
                assert(key_at(self.buckets@, idx as int, i) != key@);
            }
        }
        let ghost t1 = self.buckets@;
        let ghost e = (key, value);
        push_into(&mut self.buckets, idx, (key, value));
        self.len = self.len + 1;
        proof {
            lemma_table_push(t1, self.buckets@, m, idx as int, e);
            self.entries@ = m.insert(key@, e);
            self.lemma_view();
            assert(self@ =~= old(self)@.insert(key@, e.1));
        }
        None
    }

    /// Doubles the number of buckets and files every entry again.
    fn resize(&mut self)
        requires
            old(self).wf(),
            old(self).buckets@.len() * 2 <= usize::MAX,
        ensures
            final(self).wf(),
            final(self).entries@ == old(self).entries@,
            final(self).buckets@.len() == old(self).buckets@.len() * 2,
            final(self).len == old(self).len,
    {
        let new_capacity = self.buckets.len() * 2;
        let mut new_buckets: Vec<Vec<(K, V)>> = empty_table(new_capacity);
        let mut old_buckets: Vec<Vec<(K, V)>> = Vec::new();
        std::mem::swap(&mut old_buckets, &mut self.buckets);
        let ghost m = self.entries@;
        let ghost n = old_buckets@.len();
        let ghost mut moved: Map<K::V, (K, V)> = Map::empty();
        let ghost mut rest: Map<K::V, (K, V)> = m;
        assert(table_holds(new_buckets@, moved));
        while old_buckets.len() > 0
            invariant
                new_buckets@.len() == new_capacity,
                new_capacity > 0,
                n > 0,
                table_holds(new_buckets@, moved),
                entries_filed(old_buckets@, n, rest),
                forall|k: K::V| #[trigger] rest.contains_key(k) ==> 0 <= slot_of::<K>(k, n) < old_buckets@.len()
                    && found_in(old_buckets@, slot_of::<K>(k, n), k),
                moved.submap_of(m),
                rest.submap_of(m),
                moved.dom().disjoint(rest.dom()),
                moved.dom() + rest.dom() == m.dom(),
            decreases old_buckets@.len(),
        {
            let ghost before = old_buckets@;
            let mut bucket = old_buckets.pop().unwrap();
            let ghost cur = old_buckets@.len() as int;
            proof {
                assert(bucket == before[cur]);
                assert forall|i: int| 0 <= i < bucket@.len() implies #[trigger] bucket@[i].0@ == key_at(before, cur, i) by {}
                assert forall|i: int, j: int| 0 <= i < bucket@.len() && 0 <= j < bucket@.len() && i != j
                    implies #[trigger] bucket@[i].0@ != #[trigger] bucket@[j].0@ by {
                    assert(key_at(before, cur, i) != key_at(before, cur, j));
                }
                assert forall|b: int, i: int| 0 <= b < cur && 0 <= i < old_buckets@[b]@.len() implies
                    #[trigger] key_at(old_buckets@, b, i) == key_at(before, b, i) by {}
                assert forall|k: K::V| #[trigger] rest.contains_key(k) && slot_of::<K>(k, n) < cur implies
                    found_in(old_buckets@, slot_of::<K>(k, n), k) by {
                    let s = slot_of::<K>(k, n);
                    let i = choose|i: int| 0 <= i < before[s]@.len() && #[trigger] key_at(before, s, i) == k;
                    assert(key_at(old_buckets@, s, i) == k);
                }
                assert forall|k: K::V| #[trigger] rest.contains_key(k) && slot_of::<K>(k, n) == cur implies
                    exists|i: int| 0 <= i < bucket@.len() && #[trigger] bucket@[i].0@ == k by {
                    let i = choose|i: int| 0 <= i < before[cur]@.len() && #[trigger] key_at(before, cur, i) == k;
                    assert(bucket@[i].0@ == k);
                }
            }
            while bucket.len() > 0
                invariant
                    new_buckets@.len() == new_capacity,
                    new_capacity > 0,
                    n > 0,
                    table_holds(new_buckets@, moved),
                    cur == old_buckets@.len(),
                    entries_filed(old_buckets@, n, rest),
                    bucket_filed(bucket@, n, cur, rest),
                    forall|k: K::V| #[trigger] rest.contains_key(k) ==> {
                        ||| 0 <= slot_of::<K>(k, n) < cur && found_in(old_buckets@, slot_of::<K>(k, n), k)
                        ||| slot_of::<K>(k, n) == cur && exists|i: int| 0 <= i < bucket@.len() && #[trigger] bucket@[i].0@ == k
                    },
                    moved.submap_of(m),
                    rest.submap_of(m),
                    moved.dom().disjoint(rest.dom()),
                    moved.dom() + rest.dom() == m.dom(),
                decreases bucket@.len(),
            {
                let ghost bucket0 = bucket@;
                let (k, v) = bucket.pop().unwrap();
                let idx = (k.digest() as usize) % new_capacity;
                let ghost t1 = new_buckets@;
                let ghost e = (k, v);
                let ghost rest0 = rest;
                let ghost moved0 = moved;
                proof {
                    let last = bucket0.len() - 1;
                    assert(bucket0[last] == e);
                    assert(bucket@ =~= bucket0.drop_last());
                    moved = moved.insert(k@, e);
                    rest = rest.remove(k@);
                    assert forall|i: int| 0 <= i < bucket@.len() implies #[trigger] bucket@[i].0@ != k@ by {
                        assert(bucket@[i] == bucket0[i]);
                    }
                    assert forall|i: int| 0 <= i < bucket@.len() implies {
                        &&& slot_of::<K>(#[trigger] bucket@[i].0@, n) == cur
                        &&& rest.contains_key(bucket@[i].0@)
                        &&& rest[bucket@[i].0@] == bucket@[i]
                    } by {
                        assert(bucket@[i] == bucket0[i]);
                    }
                    assert forall|i: int, j: int| 0 <= i < bucket@.len() && 0 <= j < bucket@.len() && i != j
                        implies #[trigger] bucket@[i].0@ != #[trigger] bucket@[j].0@ by {
                        assert(bucket@[i] == bucket0[i]);
                        assert(bucket@[j] == bucket0[j]);
                    }
                    assert forall|k2: K::V| #[trigger] rest.contains_key(k2) && slot_of::<K>(k2, n) == cur implies
                        exists|i: int| 0 <= i < bucket@.len() && #[trigger] bucket@[i].0@ == k2 by {
                        let i = choose|i: int| 0 <= i < bucket0.len() && #[trigger] bucket0[i].0@ == k2;
                        assert(i != last);
                        assert(bucket@[i].0@ == k2);
                    }
                    assert(moved.dom() + rest.dom() =~= m.dom());
                }
                push_into(&mut new_buckets, idx, (k, v));
                proof {
                    lemma_table_push(t1, new_buckets@, moved0, idx as int, e);
                }
            }
        }
        self.buckets = new_buckets;
        proof {
            assert(moved =~= m);
            self.entries@ = moved;
        }
    }

    /// The bucket of whatever key `key` stands for.
    fn probe_index<Q: ?Sized>(&self, key: &Q) -> (idx: usize) where K: KeyLike<Q>
        requires
            self.buckets@.len() > 0,
        ensures
            idx == slot_of::<K>(K::probe_view(key), self.buckets@.len()),
            idx < self.buckets@.len(),
    {
        let h = K::probe_digest(key);
        (h as usize) % self.buckets.len()
    }

    /// The value stored under the key that `key` stands for, if any.
    pub fn get<Q: ?Sized>(&self, key: &Q) -> (r: Option<&V>) where K: KeyLike<Q>
        requires
            self.wf(),
        ensures
            r == (if self@.contains_key(K::probe_view(key)) {
                Some(&self@[K::probe_view(key)])
            } else {
                None
            }),
    {
        let ghost kv = K::probe_view(key);
        let idx = self.probe_index(key);
        let bucket = &self.buckets[idx];
        let mut j: usize = 0;
        while j < bucket.len()
            invariant
                self.wf(),
                kv == K::probe_view(key),
                idx == slot_of::<K>(kv, self.buckets@.len()),
                idx < self.buckets@.len(),
                bucket == &self.buckets@[idx as int],
                j <= bucket@.len(),
                forall|jj: int| 0 <= jj < j ==> key_at(self.buckets@, idx as int, jj) != kv,
            decreases bucket@.len() - j,
        {
            if bucket[j].0.matches(key) {
                assert(key_at(self.buckets@, idx as int, j as int) == kv);
                return Some(&bucket[j].1);
            }
            j += 1;
        }
        None
    }

    /// The value stored under the key that `key` stands for, which must be
    /// present.
    pub fn index<Q: ?Sized>(&self, key: &Q) -> (r: &V) where K: KeyLike<Q>
        requires
            self.wf(),
            self@.contains_key(K::probe_view(key)),
        ensures
            *r == self@[K::probe_view(key)],
    {
        self.get(key).unwrap()
    }

    /// True when the map holds no entry.
    pub fn is_empty(&self) -> (r: bool)
        requires
            self.wf(),
        ensures
            r == (self@.dom().len() == 0),
    {
        proof {
            self.lemma_view();
        }
        self.len == 0
    }

    /// The number of entries (distinct keys) in the map.
    pub fn len(&self) -> (r: usize)
        requires
            self.wf(),
        ensures
            r == self@.dom().len(),
    {
        proof {
            self.lemma_view();
        }
        self.len
    }
}

/// Reading after writing: once `after` is what `insert(k, v)` made of
/// `before`, `get(k)` finds `v`, every other key reads as it did before,
/// and the number of entries grows by one exactly when `k` was new.
pub proof fn law_read_after_insert<K: MapKey, V>(
    before: HashMap<K, V>,
    after: HashMap<K, V>,
    k: K::V,
    v: V,
    other: K::V,
)
    requires
        before.wf(),
        after@ == before@.insert(k, v),
    ensures
        after@.contains_key(k),
        after@[k] == v,
        other != k ==> (after@.contains_key(other) == before@.contains_key(other)),
        other != k && before@.contains_key(other) ==> after@[other] == before@[other],
        after@.dom().len() == (if before@.contains_key(k) {
            before@.dom().len()
        } else {
            before@.dom().len() + 1
        }),
{
    before.lemma_view();
    if before@.contains_key(k) {
        assert(after@.dom() =~= before@.dom());
    } else {
        assert(after@.dom() =~= before@.dom().insert(k));
    }
}

} // verus!
