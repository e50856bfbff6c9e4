use vstd::prelude::*;
use vstd::string::StringSliceAdditionalSpecFns;
use vstd::utf8::encode_utf8;
use vstd::laws_eq::obeys_concrete_eq;

verus! {

/// A running hash state that takes in bytes.
pub trait Hasher: Sized {
    /// The state after it has taken in `bytes`.
    spec fn absorb(&self, bytes: Seq<u8>) -> Self;

    /// The hash of what the state has taken in.
    spec fn spec_finish(&self) -> u64;

    fn finish(&self) -> (r: u64)
        ensures
            r == self.spec_finish(),
    ;

    fn write(&mut self, bytes: &[u8])
        ensures
            *final(self) == old(self).absorb(bytes@),
    ;

    fn write_u8(&mut self, i: u8)
        ensures
            *final(self) == old(self).absorb(seq![i]),
    {
        let one: Vec<u8> = vec![i];
        proof {
            assert(one@ =~= seq![i]);
        }
        self.write(one.as_slice());
    }

    fn write_i8(&mut self, i: i8)
        ensures
            *final(self) == old(self).absorb(seq![i as u8]),
    {
        self.write_u8(i as u8)
    }

    /// Takes in the bytes of `s`, then the byte `0xff` to end it.
    fn write_str(&mut self, s: &str)
        ensures
            *final(self) == old(self).absorb(s.spec_bytes()).absorb(seq![0xffu8]),
    {
        self.write(s.as_bytes());
        self.write_u8(0xff);
    }
}

/// The hasher `h` after it has taken in each of `chunks`, in order.
pub open spec fn absorb_chunks<H: Hasher>(h: H, chunks: Seq<Seq<u8>>) -> H
    decreases chunks.len(),
{
    if chunks.len() == 0 {
        h
    } else {
        absorb_chunks(h, chunks.drop_last()).absorb(chunks.last())
    }
}

/// A value that can be fed to a `Hasher`.
pub trait Hash {
    /// The bytes that hashing the value feeds to the hasher.
    spec fn hash_bytes(&self) -> Seq<u8>;

    fn hash<H: Hasher>(&self, state: &mut H)
        ensures
            *final(state) == old(state).absorb(self.hash_bytes()),
    ;

    /// Feeds each item of `data` to the hasher, in order.
    fn hash_slice<H: Hasher>(data: &[Self], state: &mut H) where Self: Sized
        ensures
            *final(state) == absorb_chunks(
                *old(state),
                data@.map_values(|x: Self| x.hash_bytes()),
            ),
    {
        let mut i: usize = 0;
        while i < data.len()
            invariant
                0 <= i <= data@.len(),
                *state == absorb_chunks(
                    *old(state),
                    data@.take(i as int).map_values(|x: Self| x.hash_bytes()),
                ),
            decreases data@.len() - i,
        {
            proof {
                assert(data@.take(i + 1).map_values(|x: Self| x.hash_bytes()).drop_last()
                    =~= data@.take(i as int).map_values(|x: Self| x.hash_bytes()));
            }
            data[i].hash(state);
            i = i + 1;
        }
        proof {
            assert(data@.take(i as int) =~= data@);
        }
    }
}

impl<'a> Hash for &'a str {
    open spec fn hash_bytes(&self) -> Seq<u8> {
        (**self).spec_bytes()
    }

    fn hash<H: Hasher>(&self, state: &mut H) {
        state.write(self.as_bytes());
    }
}

impl Hash for String {
    open spec fn hash_bytes(&self) -> Seq<u8> {
        encode_utf8(self@)
    }

    fn hash<H: Hasher>(&self, state: &mut H) {
        state.write(self.as_str().as_bytes());
    }
}

/// The FNV-1a offset basis for 64 bits.
pub const FNV_OFFSET_BASIS: u64 = 0xcbf29ce484222325;

/// The FNV-1a prime for 64 bits.
pub const FNV_PRIME: u64 = 0x100000001b3;

/// One FNV-1a round: xor in the byte, then multiply by the prime modulo 2^64.
pub open spec fn fnv_step(h: u64, b: u8) -> u64 {
    ((((h ^ (b as u64)) as nat) * (FNV_PRIME as nat)) % 0x1_0000_0000_0000_0000nat) as u64
}

/// The FNV-1a state after taking in `bytes`, starting from `h`.
pub open spec fn fnv_fold(h: u64, bytes: Seq<u8>) -> u64
    decreases bytes.len(),
{
    if bytes.len() == 0 {
        h
    } else {
        fnv_step(fnv_fold(h, bytes.drop_last()), bytes.last())
    }
}

/// The 64-bit FNV-1a hash of `bytes`.
pub open spec fn fnv1a(bytes: Seq<u8>) -> u64 {
    fnv_fold(FNV_OFFSET_BASIS, bytes)
}

/// A 64-bit FNV-1a hasher.
pub struct FNV1aHasher(u64);

impl View for FNV1aHasher {
    type V = u64;

    closed spec fn view(&self) -> u64 {
        self.0
    }
}

impl FNV1aHasher {
    pub fn new() -> (r: Self)
        ensures
            r@ == FNV_OFFSET_BASIS,
    {
        FNV1aHasher(FNV_OFFSET_BASIS)
    }
}

impl Default for FNV1aHasher {
    fn default() -> (r: Self)
        ensures
            r@ == FNV_OFFSET_BASIS,
    {
        FNV1aHasher::new()
    }
}

impl Hasher for FNV1aHasher {
    closed spec fn absorb(&self, bytes: Seq<u8>) -> Self {
        FNV1aHasher(fnv_fold(self.0, bytes))
    }

    closed spec fn spec_finish(&self) -> u64 {
        self.0
    }

    fn finish(&self) -> (r: u64) {
        self.0
    }

    fn write(&mut self, bytes: &[u8]) {
        let mut i: usize = 0;
        while i < bytes.len()
            invariant
                0 <= i <= bytes@.len(),
                self.0 == fnv_fold(old(self).0, bytes@.take(i as int)),
            decreases bytes@.len() - i,
        {
            let byte = bytes[i];
            proof {
                assert(bytes@.take(i + 1).drop_last() =~= bytes@.take(i as int));
            }
            self.0 = (self.0 ^ (byte as u64)).wrapping_mul(FNV_PRIME);
            i = i + 1;
        }
        proof {
            assert(bytes@.take(i as int) =~= bytes@);
        }
    }
}

/// What taking in bytes and finishing mean for the FNV-1a hasher.
pub proof fn lemma_fnv_hasher(h: FNV1aHasher, bytes: Seq<u8>)
    ensures
        h.absorb(bytes)@ == fnv_fold(h@, bytes),
        h.spec_finish() == h@,
{
}

/// The number of buckets of a table made without a stated capacity.
pub const DEFAULT_CAPACITY: usize = 50_000 + 10;

/// The bucket where the probe for a key with this hash starts.
pub open spec fn home_of(hash: u64, cap: int) -> int {
    hash as int % cap
}

/// The bucket visited at step `t` of a probe that starts at `h`.
pub open spec fn probe_slot(h: int, t: int, cap: int) -> int {
    if h + t < cap {
        h + t
    } else {
        h + t - cap
    }
}

/// The step at which a probe that starts at `h` reaches bucket `i`.
pub open spec fn probe_dist(h: int, i: int, cap: int) -> int {
    if i >= h {
        i - h
    } else {
        i + cap - h
    }
}

/// The number of occupied buckets.
pub open spec fn count_some<T>(s: Seq<Option<T>>) -> nat
    decreases s.len(),
{
    if s.len() == 0 {
        0
    } else {
        count_some(s.drop_last()) + if s.last() is Some {
            1nat
        } else {
            0nat
        }
    }
}

proof fn lemma_count_update<T>(s: Seq<Option<T>>, j: int, x: Option<T>)
    requires
        0 <= j < s.len(),
    ensures
        count_some(s.update(j, x)) + (if s[j] is Some { 1int } else { 0int }) == count_some(s)
            + (if x is Some { 1int } else { 0int }),
    decreases s.len(),
{
    if j < s.len() - 1 {
        assert(s.update(j, x).drop_last() =~= s.drop_last().update(j, x));
        lemma_count_update(s.drop_last(), j, x);
    } else {
        assert(s.update(j, x).drop_last() =~= s.drop_last());
    }
}

proof fn lemma_count_full<T>(s: Seq<Option<T>>)
    requires
        forall|i: int| 0 <= i < s.len() ==> #[trigger] s[i] is Some,
    ensures
        count_some(s) == s.len(),
    decreases s.len(),
{
    if s.len() > 0 {
        lemma_count_full(s.drop_last());
    }
}

proof fn lemma_count_empty<T>(s: Seq<Option<T>>)
    requires
        forall|i: int| 0 <= i < s.len() ==> #[trigger] s[i] is None,
    ensures
        count_some(s) == 0,
    decreases s.len(),
{
    if s.len() > 0 {
        lemma_count_empty(s.drop_last());
    }
}

/// The bucket where the probe for `k` starts in a table of `cap` buckets.
pub open spec fn key_home<K: Hash>(k: K, cap: int) -> int {
    home_of(fnv1a(k.hash_bytes()), cap)
}

/// The buckets `b` hold exactly the entries of `m`, each key once, and every
/// bucket on the probe path from a key's home to its bucket is occupied.
pub open spec fn table_wf<K: Hash, V>(b: Seq<Option<(K, V)>>, cap: int, m: Map<K, V>) -> bool {
    &&& b.len() == cap
    &&& cap > 0
    &&& m.dom().finite()
    &&& m.len() == count_some(b)
    &&& forall|i: int|
        0 <= i < cap && (#[trigger] b[i]) is Some ==> m.contains_key(b[i]->Some_0.0)
            && m[b[i]->Some_0.0] == b[i]->Some_0.1
    &&& forall|k: K|
        #[trigger] m.contains_key(k) ==> exists|i: int|
            0 <= i < cap && #[trigger] b[i] == Some((k, m[k]))
    &&& forall|i: int, j: int|
        0 <= i < cap && 0 <= j < cap && (#[trigger] b[i]) is Some && (#[trigger] b[j]) is Some
            && b[i]->Some_0.0 == b[j]->Some_0.0 ==> i == j
    &&& forall|i: int, t: int|
        0 <= i < cap && (#[trigger] b[i]) is Some && 0 <= t < probe_dist(
            key_home(b[i]->Some_0.0, cap),
            i,
            cap,
        ) ==> (#[trigger] b[probe_slot(key_home(b[i]->Some_0.0, cap), t, cap)]) is Some
}

proof fn lemma_replaced<K: Hash, V>(
    b: Seq<Option<(K, V)>>,
    cap: int,
    m: Map<K, V>,
    j: int,
    k: K,
    v: V,
)
    requires
        table_wf(b, cap, m),
        0 <= j < cap,
        b[j] is Some,
        b[j]->Some_0.0 == k,
    ensures
        table_wf(b.update(j, Some((k, v))), cap, m.insert(k, v)),
        m.contains_key(k),
        m[k] == b[j]->Some_0.1,
{
    let nb = b.update(j, Some((k, v)));
    let nm = m.insert(k, v);
    lemma_count_update(b, j, Some((k, v)));
    assert(nm.dom() =~= m.dom());
    assert forall|i: int| 0 <= i < cap && (#[trigger] nb[i]) is Some implies nm.contains_key(
        nb[i]->Some_0.0,
    ) && nm[nb[i]->Some_0.0] == nb[i]->Some_0.1 by {
        if i != j {
            assert(b[i] is Some && b[j] is Some);
        }
    }
    assert forall|kk: K| #[trigger] nm.contains_key(kk) implies exists|i: int|
        0 <= i < cap && #[trigger] nb[i] == Some((kk, nm[kk])) by {
        if kk == k {
            assert(nb[j] == Some((kk, nm[kk])));
        } else {
            let i = choose|i: int| 0 <= i < cap && #[trigger] b[i] == Some((kk, m[kk]));
            assert(nb[i] == Some((kk, nm[kk])));
        }
    }
    assert forall|i: int, t: int|
        0 <= i < cap && (#[trigger] nb[i]) is Some && 0 <= t < probe_dist(
            key_home(nb[i]->Some_0.0, cap),
            i,
            cap,
        ) implies (#[trigger] nb[probe_slot(key_home(nb[i]->Some_0.0, cap), t, cap)]) is Some by {
        assert(b[i] is Some);
        assert(b[probe_slot(key_home(b[i]->Some_0.0, cap), t, cap)] is Some);
    }
}

proof fn lemma_placed<K: Hash, V>(
    b: Seq<Option<(K, V)>>,
    cap: int,
    m: Map<K, V>,
    j: int,
    t: int,
    k: K,
    v: V,
)
    requires
        table_wf(b, cap, m),
        !m.contains_key(k),
        0 <= t < cap,
        0 <= key_home(k, cap) < cap,
        j == probe_slot(key_home(k, cap), t, cap),
        b[j] is None,
        forall|s: int|
            0 <= s < t ==> (#[trigger] b[probe_slot(key_home(k, cap), s, cap)]) is Some,
    ensures
        table_wf(b.update(j, Some((k, v))), cap, m.insert(k, v)),
{
    let nb = b.update(j, Some((k, v)));
    let nm = m.insert(k, v);
    let h = key_home(k, cap);
    lemma_count_update(b, j, Some((k, v)));
    assert forall|i: int| 0 <= i < cap && (#[trigger] nb[i]) is Some implies nm.contains_key(
        nb[i]->Some_0.0,
    ) && nm[nb[i]->Some_0.0] == nb[i]->Some_0.1 by {
        if i != j {
            assert(b[i] is Some);
        }
    }
    assert forall|kk: K| #[trigger] nm.contains_key(kk) implies exists|i: int|
        0 <= i < cap && #[trigger] nb[i] == Some((kk, nm[kk])) by {
        if kk == k {
            assert(nb[j] == Some((kk, nm[kk])));
        } else {
            let i = choose|i: int| 0 <= i < cap && #[trigger] b[i] == Some((kk, m[kk]));
            assert(nb[i] == Some((kk, nm[kk])));
        }
    }
    assert forall|i: int, i2: int|
        0 <= i < cap && 0 <= i2 < cap && (#[trigger] nb[i]) is Some && (#[trigger] nb[i2]) is Some
            && nb[i]->Some_0.0 == nb[i2]->Some_0.0 implies i == i2 by {
        if i != j && i2 != j {
            assert(b[i] is Some && b[i2] is Some);
        } else if i != j {
            assert(b[i] is Some);
        } else if i2 != j {
            assert(b[i2] is Some);
        }
    }
    assert forall|i: int, s: int|
        0 <= i < cap && (#[trigger] nb[i]) is Some && 0 <= s < probe_dist(
            key_home(nb[i]->Some_0.0, cap),
            i,
            cap,
        ) implies (#[trigger] nb[probe_slot(key_home(nb[i]->Some_0.0, cap), s, cap)]) is Some by {
        if i == j {
            assert(probe_dist(h, j, cap) == t);
            assert(b[probe_slot(h, s, cap)] is Some);
        } else {
            assert(b[i] is Some);
            assert(b[probe_slot(key_home(b[i]->Some_0.0, cap), s, cap)] is Some);
        }
    }
}

/// A table of fixed capacity with open addressing and linear probing.
/// Keys are never removed and the table never grows.
#[verifier::reject_recursive_types(K)]
pub struct HashMap<K, V> {
    buckets: Vec<Option<(K, V)>>,
    capacity: usize,
    contents: Ghost<Map<K, V>>,
}

impl<K, V> View for HashMap<K, V> {
    type V = Map<K, V>;

    closed spec fn view(&self) -> Map<K, V> {
        self.contents@
    }
}

impl<K: Eq + Hash + Clone, V: Eq + Clone> HashMap<K, V> {
    /// The number of buckets.
    pub closed spec fn spec_capacity(&self) -> nat {
        self.capacity as nat
    }

    /// The buckets in order, each empty or holding a key and its value.
    pub closed spec fn slots(&self) -> Seq<Option<(K, V)>> {
        self.buckets@
    }

    /// The bucket where the probe for `k` starts.
    pub open spec fn home(&self, k: K) -> int {
        key_home(k, self.spec_capacity() as int)
    }

    pub closed spec fn wf(&self) -> bool {
        table_wf(self.buckets@, self.capacity as int, self.contents@)
    }

    /// An empty table with the default number of buckets.
    pub fn new() -> (r: HashMap<K, V>)
        ensures
            r.wf(),
            r@ == Map::<K, V>::empty(),
            r.spec_capacity() == DEFAULT_CAPACITY,
    {
        Self::new_with_capacity(None)
    }

    /// An empty table with `capacity` buckets, or the default number.
    pub fn new_with_capacity(capacity: Option<usize>) -> (r: HashMap<K, V>)
        requires
            capacity != Some(0usize),
        ensures
            r.wf(),
            r@ == Map::<K, V>::empty(),
            r.spec_capacity() == (match capacity {
                Some(c) => c,
                None => DEFAULT_CAPACITY,
            }),
    {
        let cap = match capacity {
            Some(c) => c,
            None => DEFAULT_CAPACITY,
        };
        let mut buckets: Vec<Option<(K, V)>> = Vec::new();
        let mut i: usize = 0;
        while i < cap
            invariant
                i <= cap,
                buckets@.len() == i,
                forall|j: int| 0 <= j < i ==> #[trigger] buckets@[j] is None,
            decreases cap - i,
        {
            buckets.push(None);
            i = i + 1;
        }
        proof {
            lemma_count_empty(buckets@);
        }
        HashMap { buckets, capacity: cap, contents: Ghost(Map::empty()) }
    }

    /// The bucket where the probe for `k` starts.
    fn hash(&self, k: &K) -> (r: u64)
        requires
            self.wf(),
        ensures
            r as int == self.home(*k),
    {
        let mut hasher = FNV1aHasher::default();
        k.hash(&mut hasher);
        let hash = hasher.finish();
        hash % (self.capacity as u64)
    }

    /// A probe for `k` that met only other keys for its first `t` steps, and
    /// then an empty bucket or the end of the table, shows that `k` is absent.
    proof fn lemma_absent(&self, k: K, t: int)
        requires
            self.wf(),
            0 <= t <= self.capacity,
            0 <= self.home(k) < self.capacity,
            forall|s: int|
                0 <= s < t ==> (#[trigger] self.buckets@[probe_slot(
                    self.home(k),
                    s,
                    self.capacity as int,
                )]) is Some && self.buckets@[probe_slot(
                    self.home(k),
                    s,
                    self.capacity as int,
                )]->Some_0.0 != k,
            t == self.capacity || self.buckets@[probe_slot(
                self.home(k),
                t,
                self.capacity as int,
            )] is None,
        ensures
            !self@.contains_key(k),
    {
        let b = self.buckets@;
        let cap = self.capacity as int;
        let h = self.home(k);
        if self.contents@.contains_key(k) {
            let i = choose|i: int| 0 <= i < cap && #[trigger] b[i] == Some((k, self.contents@[k]));
            let d = probe_dist(h, i, cap);
            assert(probe_slot(h, d, cap) == i);
            if d < t {
                assert(b[probe_slot(h, d, cap)] is Some);
            } else if d > t {
                assert(b[probe_slot(self.home(b[i]->Some_0.0), t, cap)] is Some);
            }
        }
    }

    /// The value stored under `k`, if any.
    pub fn get(&self, k: &K) -> (r: Option<&V>)
        requires
            self.wf(),
            obeys_concrete_eq::<K>(),
        ensures
            self@.contains_key(*k) ==> r == Some(&self@[*k]),
            !self@.contains_key(*k) ==> r is None,
    {
        proof {
            reveal(obeys_concrete_eq);
        }
        let mut index = self.hash(k) as usize;
        let ghost h = index as int;
        let ghost cap = self.capacity as int;
        let mut t: usize = 0;
        while t < self.capacity
            invariant
                self.wf(),
                obeys_concrete_eq::<K>(),
                cap == self.capacity,
                h == self.home(*k),
                0 <= h < cap,
                t <= cap,
                index == probe_slot(h, t as int, cap),
                forall|s: int|
                    0 <= s < t ==> (#[trigger] self.buckets@[probe_slot(h, s, cap)]) is Some
                        && self.buckets@[probe_slot(h, s, cap)]->Some_0.0 != *k,
            decreases cap - t,
        {
            proof {
                reveal(obeys_concrete_eq);
            }
            match &self.buckets[index] {
                Some(entry) => {
                    if entry.0.eq(k) {
                        return Some(&entry.1);
                    }
                },
                None => {
                    proof {
                        self.lemma_absent(*k, t as int);
                    }
                    return None;
                },
            }
            index = if index + 1 == self.capacity {
                0
            } else {
                index + 1
            };
            t = t + 1;
        }
        proof {
            self.lemma_absent(*k, t as int);
        }
        None
    }

    /// Stores `v` under `k`, handing back the value it replaces, if any.
    pub fn insert(&mut self, k: K, v: V) -> (r: Option<V>)
        requires
            old(self).wf(),
            obeys_concrete_eq::<K>(),
            old(self)@.contains_key(k) || old(self)@.len() < old(self).spec_capacity(),
        ensures
            final(self).wf(),
            final(self)@ == old(self)@.insert(k, v),
            final(self).spec_capacity() == old(self).spec_capacity(),
            old(self)@.contains_key(k) ==> r == Some(old(self)@[k]),
            !old(self)@.contains_key(k) ==> r is None,
    {
        proof {
            reveal(obeys_concrete_eq);
        }
        let ghost gk = k;
        let ghost gv = v;
        let mut index = self.hash(&k) as usize;
        let ghost h = index as int;
        let ghost cap = self.capacity as int;
        let mut t: usize = 0;
        while t < self.capacity
            invariant
                *self == *old(self),
                self.wf(),
                obeys_concrete_eq::<K>(),
                gk == k,
                gv == v,
                cap == self.capacity,
                h == self.home(k),
                0 <= h < cap,
                t <= cap,
                index == probe_slot(h, t as int, cap),
                forall|s: int|
                    0 <= s < t ==> (#[trigger] self.buckets@[probe_slot(h, s, cap)]) is Some
                        && self.buckets@[probe_slot(h, s, cap)]->Some_0.0 != k,
            decreases cap - t,
        {
            proof {
                reveal(obeys_concrete_eq);
            }
            let (occupied, same) = match &self.buckets[index] {
                Some(entry) => (true, entry.0.eq(&k)),
                None => (false, false),
            };
            if same {
                let ghost b = self.buckets@;
                let ghost m = self.contents@;
                let mut entry = Some((k, v));
                self.buckets.set_and_swap(index, &mut entry);
                self.contents = Ghost(m.insert(gk, gv));
                proof {
                    lemma_replaced(b, cap, m, index as int, gk, gv);
                }
                return match entry {
                    Some(e) => Some(e.1),
                    None => None,
                };
            } else if !occupied {
                let ghost b = self.buckets@;
                let ghost m = self.contents@;
                proof {
                    old(self).lemma_absent(gk, t as int);
                }
                self.buckets.set(index, Some((k, v)));
                self.contents = Ghost(m.insert(gk, gv));
                proof {
                    lemma_placed(b, cap, m, index as int, t as int, gk, gv);
                }
                return None;
            }
            index = if index + 1 == self.capacity {
                0
            } else {
                index + 1
            };
            t = t + 1;
        }
        proof {
            self.lemma_absent(k, t as int);
            assert forall|i: int| 0 <= i < cap implies #[trigger] self.buckets@[i] is Some by {
                assert(probe_slot(h, probe_dist(h, i, cap), cap) == i);
                assert(self.buckets@[probe_slot(h, probe_dist(h, i, cap), cap)] is Some);
            }
            lemma_count_full(self.buckets@);
        }
        None
    }


    /// A walk over the occupied buckets, from the first bucket on.
    pub fn iter(&self) -> (r: Iter<'_, K, V>)
        requires
            self.wf(),
        ensures
            r.entries() == self.slots(),
            r.pos() == 0,
            r.entries().len() == self.spec_capacity(),
            forall|i: int|
                0 <= i < r.entries().len() && (#[trigger] r.entries()[i]) is Some
                    ==> self@.contains_key(r.entries()[i]->Some_0.0)
                    && self@[r.entries()[i]->Some_0.0] == r.entries()[i]->Some_0.1,
            forall|k: K|
                #[trigger] self@.contains_key(k) ==> exists|i: int|
                    0 <= i < r.entries().len() && #[trigger] r.entries()[i] == Some((k, self@[k])),
    {
        Iter { buckets: &self.buckets, index: 0 }
    }
}

/// A walk over the occupied buckets of a table, in bucket order.
#[verifier::reject_recursive_types(K)]
pub struct Iter<'a, K, V> {
    buckets: &'a Vec<Option<(K, V)>>,
    index: usize,
}

impl<'a, K, V> Iter<'a, K, V> {
    /// The buckets walked over.
    pub closed spec fn entries(&self) -> Seq<Option<(K, V)>> {
        self.buckets@
    }

    /// The first bucket not yet looked at.
    pub closed spec fn pos(&self) -> int {
        self.index as int
    }

    /// The key and value in the next occupied bucket, skipping empty ones.
    pub fn next(&mut self) -> (r: Option<(&'a K, &'a V)>)
        ensures
            final(self).entries() == old(self).entries(),
            r is Some ==> {
                &&& old(self).pos() < final(self).pos() <= old(self).entries().len()
                &&& old(self).entries()[final(self).pos() - 1] == Some(
                    (*r->Some_0.0, *r->Some_0.1),
                )
                &&& forall|j: int|
                    old(self).pos() <= j < final(self).pos() - 1 ==> (
                    #[trigger] old(self).entries()[j]) is None
            },
            r is None ==> {
                &&& final(self).pos() >= old(self).entries().len()
                &&& forall|j: int|
                    old(self).pos() <= j < old(self).entries().len() ==> (
                    #[trigger] old(self).entries()[j]) is None
            },
    {
        let buckets: &'a Vec<Option<(K, V)>> = self.buckets;
        while self.index < buckets.len()
            invariant
                self.buckets == buckets,
                old(self).buckets == buckets,
                old(self).pos() <= self.index,
                forall|j: int| old(self).pos() <= j < self.index ==> (#[trigger] buckets@[j]) is None,
            decreases buckets@.len() - self.index,
        {
            match &buckets[self.index] {
                Some(entry) => {
                    self.index = self.index + 1;
                    return Some((&entry.0, &entry.1));
                },
                None => {},
            }
            self.index = self.index + 1;
        }
        None
    }
}

} // verus!
