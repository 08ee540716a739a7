//! The sharded key-value store and its shard-selection hash.
//!
//! Keys are byte strings and map to byte-string values. The store is a
//! fixed number of independent shards; a deterministic hash sends every key
//! to exactly one shard, the same shard for the store's whole lifetime, so
//! operations on keys of different shards never touch the same data. Each
//! shard is a small association map with set-wins-last-write semantics.
//!
//! Callers that share a store across concurrent connections wrap each shard
//! in its own exclusive lock; the shard-selection function and the per-shard
//! map operations verified here are what runs under such a lock.

use vstd::prelude::*;

verus! {

/// The 64-bit FNV-1a hash of a byte string: a fixed offset basis folded
/// with each byte by xor and a wrapping multiply by the FNV prime. A pure
/// function of the key alone, so it is stable across calls, connections
/// and store lifetimes.
pub open spec fn hash_spec(key: Seq<u8>) -> u64
    decreases key.len(),
{
    if key.len() == 0 {
        0xcbf29ce484222325u64
    } else {
        (hash_spec(key.drop_last()) ^ (key.last() as u64)).wrapping_mul(0x100000001b3u64)
    }
}

/// The shard a key belongs to, among `n` shards.
pub open spec fn shard_idx(key: Seq<u8>, n: int) -> int
    recommends
        n > 0,
{
    hash_spec(key) as int % n
}

/// Computes the stable hash of a key.
pub fn hash(key: &[u8]) -> (h: u64)
    ensures
        h == hash_spec(key@),
{
    let mut h: u64 = 0xcbf29ce484222325;
    proof {
        assert(key@.subrange(0, 0) =~= Seq::<u8>::empty());
    }
    let mut i: usize = 0;
    while i < key.len()
        invariant
            i <= key@.len(),
            h == hash_spec(key@.subrange(0, i as int)),
        decreases key@.len() - i,
    {
        proof {
            assert(key@.subrange(0, i + 1).drop_last() =~= key@.subrange(0, i as int));
            assert(key@.subrange(0, i + 1).last() == key@[i as int]);
        }
        h = (h ^ (key[i] as u64)).wrapping_mul(0x100000001b3);
        i = i + 1;
    }
    proof {
        assert(key@.subrange(0, key@.len() as int) =~= key@);
    }
    h
}

/// Selects the shard for a key: `hash(key) mod num_shards`. Deterministic
/// in the key and the shard count alone.
pub fn shard_of(key: &[u8], num_shards: usize) -> (i: usize)
    requires
        num_shards >= 1,
    ensures
        i == shard_idx(key@, num_shards as int),
        i < num_shards,
{
    let h = hash(key);
    (h % (num_shards as u64)) as usize
}

/// Byte-string equality.
pub fn bytes_eq(a: &[u8], b: &[u8]) -> (r: bool)
    ensures
        r == (a@ == b@),
{
    if a.len() != b.len() {
        return false;
    }
    let mut i: usize = 0;
    while i < a.len()
        invariant
            i <= a@.len(),
            a@.len() == b@.len(),
            forall|j: int| 0 <= j < i ==> a@[j] == b@[j],
        decreases a@.len() - i,
    {
        if a[i] != b[i] {
            return false;
        }
        i = i + 1;
    }
    proof {
        assert(a@ =~= b@);
    }
    true
}

/// Copies a byte slice into a fresh, owned vector.
pub fn to_owned_bytes(src: &[u8]) -> (r: Vec<u8>)
    ensures
        r@ == src@,
{
    let mut r: Vec<u8> = Vec::new();
    crate::frame::push_all(&mut r, src);
    proof {
        assert(r@ =~= src@);
    }
    r
}

/// The map denoted by a sequence of key-value entries; a later entry for
/// the same key overrides an earlier one.
pub open spec fn entries_map(es: Seq<(Vec<u8>, Vec<u8>)>) -> Map<Seq<u8>, Seq<u8>>
    decreases es.len(),
{
    if es.len() == 0 {
        Map::empty()
    } else {
        entries_map(es.drop_last()).insert(es.last().0@, es.last().1@)
    }
}

/// True when no two entries carry the same key.
pub open spec fn uniq_keys(es: Seq<(Vec<u8>, Vec<u8>)>) -> bool {
    forall|i: int, j: int| 0 <= i < j < es.len() ==> (#[trigger] es[i]).0@ != (
    #[trigger] es[j]).0@
}

/// A key matching no entry is not in the denoted map.
proof fn lemma_entries_absent(es: Seq<(Vec<u8>, Vec<u8>)>, k: Seq<u8>)
    requires
        forall|i: int| 0 <= i < es.len() ==> (#[trigger] es[i]).0@ != k,
    ensures
        !entries_map(es).contains_key(k),
    decreases es.len(),
{
    if es.len() > 0 {
        assert(forall|i: int| 0 <= i < es.len() - 1 ==> es.drop_last()[i] == es[i]);
        lemma_entries_absent(es.drop_last(), k);
    }
}

/// An entry whose key recurs in no later entry gives the denoted map's
/// value for that key.
proof fn lemma_entries_found(es: Seq<(Vec<u8>, Vec<u8>)>, i: int)
    requires
        0 <= i < es.len(),
        forall|j: int| i < j < es.len() ==> (#[trigger] es[j]).0@ != es[i].0@,
    ensures
        entries_map(es).contains_key(es[i].0@),
        entries_map(es)[es[i].0@] == es[i].1@,
    decreases es.len(),
{
    if i == es.len() - 1 {
    } else {
        assert(forall|j: int| 0 <= j < es.len() - 1 ==> es.drop_last()[j] == es[j]);
        lemma_entries_found(es.drop_last(), i);
        assert(es.last().0@ != es[i].0@);
    }
}

/// Removing the unique entry for a key removes exactly that key from the
/// denoted map.
proof fn lemma_entries_remove(es: Seq<(Vec<u8>, Vec<u8>)>, i: int)
    requires
        0 <= i < es.len(),
        uniq_keys(es),
    ensures
        entries_map(es.remove(i)) == entries_map(es).remove(es[i].0@),
    decreases es.len(),
{
    let k = es[i].0@;
    if i == es.len() - 1 {
        assert(es.remove(i) =~= es.drop_last());
        assert(forall|j: int| 0 <= j < es.len() - 1 ==> (#[trigger] es[j]).0@ != k);
        assert(forall|j: int| 0 <= j < es.len() - 1 ==> es.drop_last()[j] == es[j]);
        lemma_entries_absent(es.drop_last(), k);
        assert(entries_map(es.drop_last()).remove(k) =~= entries_map(es.drop_last()));
        assert(entries_map(es).remove(k) =~= entries_map(es.drop_last()).insert(
            es.last().0@,
            es.last().1@,
        ).remove(k));
    } else {
        let d = es.drop_last();
        assert(forall|j: int| 0 <= j < es.len() - 1 ==> d[j] == es[j]);
        assert(uniq_keys(d));
        lemma_entries_remove(d, i);
        assert(es.remove(i).drop_last() =~= d.remove(i));
        assert(es.remove(i).last() == es.last());
        assert(entries_map(es.remove(i)) == entries_map(d.remove(i)).insert(
            es.last().0@,
            es.last().1@,
        ));
        assert(es.last().0@ != k);
        assert(entries_map(d).remove(k).insert(es.last().0@, es.last().1@)
            =~= entries_map(d).insert(es.last().0@, es.last().1@).remove(k));
    }
}

/// One shard: an exclusive-access association map from keys to values.
pub struct Shard {
    entries: Vec<(Vec<u8>, Vec<u8>)>,
}

impl Shard {
    /// The mapping this shard holds.
    pub closed spec fn view(&self) -> Map<Seq<u8>, Seq<u8>> {
        entries_map(self.entries@)
    }

    /// Internal invariant: each key appears in at most one entry.
    pub closed spec fn wf(&self) -> bool {
        uniq_keys(self.entries@)
    }

    /// An empty shard.
    pub fn new() -> (s: Shard)
        ensures
            s.wf(),
            s@ == Map::<Seq<u8>, Seq<u8>>::empty(),
    {
        Shard { entries: Vec::new() }
    }

    /// The index of the entry holding `key`, if any.
    fn find_key(&self, key: &[u8]) -> (r: Option<usize>)
        ensures
            match r {
                Some(i) => i < self.entries@.len() && self.entries@[i as int].0@ == key@,
                None => forall|j: int|
                    0 <= j < self.entries@.len() ==> (#[trigger] self.entries@[j]).0@ != key@,
            },
    {
        let mut i: usize = 0;
        while i < self.entries.len()
            invariant
                i <= self.entries@.len(),
                forall|j: int| 0 <= j < i ==> (#[trigger] self.entries@[j]).0@ != key@,
            decreases self.entries@.len() - i,
        {
            if bytes_eq(self.entries[i].0.as_slice(), key) {
                return Some(i);
            }
            i = i + 1;
        }
        None
    }

    /// Looks `key` up, returning a copy of the stored value, or `None` when
    /// the key is absent.
    pub fn get(&self, key: &[u8]) -> (r: Option<Vec<u8>>)
        requires
            self.wf(),
        ensures
            match r {
                Some(v) => self@.contains_key(key@) && v@ == self@[key@],
                None => !self@.contains_key(key@),
            },
    {
        match self.find_key(key) {
            Some(i) => {
                proof {
                    lemma_entries_found(self.entries@, i as int);
                }
                Some(to_owned_bytes(self.entries[i].1.as_slice()))
            },
            None => {
                proof {
                    lemma_entries_absent(self.entries@, key@);
                }
                None
            },
        }
    }

    /// Inserts or overwrites: afterwards the shard maps `key` to `value`
    /// and every other key exactly as before.
    pub fn set(&mut self, key: &[u8], value: Vec<u8>)
        requires
            old(self).wf(),
        ensures
            final(self).wf(),
            final(self)@ == old(self)@.insert(key@, value@),
    {
        let ghost es0 = self.entries@;
        match self.find_key(key) {
            Some(i) => {
                proof {
                    lemma_entries_remove(es0, i as int);
                }
                self.entries.remove(i);
                proof {
                    let es1 = self.entries@;
                    assert(forall|a: int, b: int|
                        0 <= a < b < es1.len() ==> es1[a] == es0[if a < i { a } else { a + 1 }]
                            && es1[b] == es0[if b < i { b } else { b + 1 }]);
                    assert(uniq_keys(es1));
                    assert(forall|j: int|
                        0 <= j < es1.len() ==> (#[trigger] es1[j]) == es0[
                            if j < i { j } else { j + 1 }
                        ]);
                    assert(forall|j: int|
                        0 <= j < es1.len() ==> (#[trigger] es1[j]).0@ != key@);
                }
            },
            None => {
                proof {
                    assert(entries_map(es0).remove(key@) =~= entries_map(es0)) by {
                        lemma_entries_absent(es0, key@);
                    }
                }
            },
        }
        let ghost es1 = self.entries@;
        let owned_key = to_owned_bytes(key);
        self.entries.push((owned_key, value));
        proof {
            let es2 = self.entries@;
            assert(es2.drop_last() =~= es1);
            assert(es2.last().0@ == key@ && es2.last().1@ == value@);
            assert(entries_map(es2) == entries_map(es1).insert(key@, value@));
            assert(entries_map(es1) == entries_map(es0).remove(key@));
            assert(entries_map(es0).remove(key@).insert(key@, value@) =~= entries_map(
                es0,
            ).insert(key@, value@));
            assert(forall|j: int| 0 <= j < es1.len() ==> es2[j] == es1[j]);
            assert(forall|j: int| 0 <= j < es1.len() ==> (#[trigger] es1[j]).0@ != key@);
            assert(uniq_keys(es2));
        }
    }
}

/// The sharded key-value store: a fixed number of shards, each an
/// independent map, with every key routed to the shard `shard_idx` names.
///
/// This type captures the store's sequential meaning: one overall mapping,
/// partitioned so that operations on keys of different shards are
/// independent. A server sharing the store across connections holds each
/// shard behind its own exclusive lock and routes with `shard_of`; `set`'s
/// contract shows that a write touches only the owning shard.
pub struct Store {
    shards: Vec<Shard>,
}

impl Store {
    /// The number of shards, fixed at construction.
    pub closed spec fn shard_count(&self) -> int {
        self.shards@.len() as int
    }

    /// The mapping held by shard `i`.
    pub closed spec fn shard_at(&self, i: int) -> Map<Seq<u8>, Seq<u8>> {
        self.shards@[i]@
    }

    /// Internal invariant: at least one shard, every shard well formed, and
    /// every key stored in the shard its hash routes it to.
    pub closed spec fn wf(&self) -> bool {
        &&& self.shards@.len() >= 1
        &&& forall|i: int| 0 <= i < self.shards@.len() ==> (#[trigger] self.shards@[i]).wf()
        &&& forall|i: int, k: Seq<u8>|
            0 <= i < self.shards@.len() && #[trigger] self.shards@[i]@.contains_key(k)
                ==> shard_idx(k, self.shards@.len() as int) == i
    }

    /// The one overall mapping the store denotes.
    pub closed spec fn contents(&self) -> Map<Seq<u8>, Seq<u8>> {
        Map::new(
            |k: Seq<u8>| self.shards@[shard_idx(k, self.shards@.len() as int)]@.contains_key(k),
            |k: Seq<u8>| self.shards@[shard_idx(k, self.shards@.len() as int)]@[k],
        )
    }

    /// A store with `num_shards` empty shards.
    pub fn new(num_shards: usize) -> (s: Store)
        requires
            num_shards >= 1,
        ensures
            s.wf(),
            s.shard_count() == num_shards,
            s.contents() == Map::<Seq<u8>, Seq<u8>>::empty(),
    {
        let mut shards: Vec<Shard> = Vec::new();
        let mut i: usize = 0;
        while i < num_shards
            invariant
                i == shards@.len(),
                i <= num_shards,
                forall|j: int| 0 <= j < i ==> (#[trigger] shards@[j]).wf(),
                forall|j: int|
                    0 <= j < i ==> (#[trigger] shards@[j])@ == Map::<Seq<u8>, Seq<u8>>::empty(),
            decreases num_shards - i,
        {
            shards.push(Shard::new());
            i = i + 1;
        }
        let s = Store { shards };
        proof {
            assert forall|k: Seq<u8>| !(#[trigger] s.contents().contains_key(k)) by {
                let idx = shard_idx(k, s.shards@.len() as int);
                assert(0 <= idx < s.shards@.len());
                assert(s.shards@[idx]@ == Map::<Seq<u8>, Seq<u8>>::empty());
            }
            assert(s.contents() =~= Map::<Seq<u8>, Seq<u8>>::empty());
        }
        s
    }

    /// The number of shards.
    pub fn num_shards(&self) -> (n: usize)
        ensures
            n == self.shard_count(),
    {
        self.shards.len()
    }

    /// Looks a key up in its shard alone, returning a copy of the stored
    /// value or `None` when the key is absent from the store.
    pub fn get(&self, key: &[u8]) -> (r: Option<Vec<u8>>)
        requires
            self.wf(),
        ensures
            match r {
                Some(v) => self.contents().contains_key(key@) && v@ == self.contents()[key@],
                None => !self.contents().contains_key(key@),
            },
    {
        let idx = shard_of(key, self.shards.len());
        let shard = &self.shards[idx];
        let r = shard.get(key);
        proof {
            if !shard@.contains_key(key@) {
                if self.contents().contains_key(key@) {
                    assert(false);
                }
            }
        }
        r
    }

    /// Inserts or overwrites `key` in its shard alone: afterwards the store
    /// maps `key` to `value` and every other key exactly as before, and no
    /// shard other than the key's own has changed at all.
    pub fn set(&mut self, key: &[u8], value: Vec<u8>)
        requires
            old(self).wf(),
        ensures
            final(self).wf(),
            final(self).shard_count() == old(self).shard_count(),
            final(self).contents() == old(self).contents().insert(key@, value@),
            forall|i: int|
                0 <= i < old(self).shard_count() && i != shard_idx(key@, old(self).shard_count())
                    ==> final(self).shard_at(i) == old(self).shard_at(i),
    {
        let n = self.shards.len();
        let idx = shard_of(key, n);
        let mut shard = self.shards.remove(idx);
        shard.set(key, value);
        self.shards.insert(idx, shard);
        proof {
            let n_ = n as int;
            let i0 = idx as int;
            let es0 = old(self).shards@;
            let es2 = self.shards@;
            assert(es2 =~= es0.update(i0, shard));
            assert(shard@ == es0[i0]@.insert(key@, value@));
            assert forall|i: int, k: Seq<u8>|
                0 <= i < es2.len() && #[trigger] es2[i]@.contains_key(k) implies shard_idx(
                k,
                n_,
            ) == i by {
                if i == i0 {
                    if k != key@ {
                        assert(es0[i0]@.contains_key(k));
                    }
                } else {
                    assert(es2[i] == es0[i]);
                }
            }
            assert forall|k: Seq<u8>| #[trigger]
                self.contents().contains_key(k) == old(self).contents().insert(
                    key@,
                    value@,
                ).contains_key(k) && (self.contents().contains_key(k)
                ==> self.contents()[k] == old(self).contents().insert(key@, value@)[k]) by {
                let ki = shard_idx(k, n_);
                assert(0 <= ki < n_);
                if ki == i0 {
                    if k != key@ {
                        assert(es2[ki]@.contains_key(k) == es0[ki]@.contains_key(k));
                    }
                } else {
                    assert(es2[ki] == es0[ki]);
                }
            }
            assert(self.contents() =~= old(self).contents().insert(key@, value@));
        }
    }
}

} // verus!
