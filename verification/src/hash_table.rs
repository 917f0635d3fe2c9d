//! The hash table: open addressing with linear probing, explicit tombstones,
//! and capacity-doubling growth. Every operation is specified against the
//! table's view, a `Map` from key models to values.

use vstd::prelude::*;

use crate::hash_key::HashKey;
use crate::hashing::{hash, sdbm_hash};

verus! {

/// The capacity a freshly created table starts with.
pub const INITIAL_CAPACITY: usize = 64;

/// One cell of the backing sequence: never written, holding an entry, or
/// logically removed but physically retained so probe chains stay unbroken.
enum Slot<Key, Value> {
    Empty,
    Occupied { key: Key, value: Value },
    Tombstone,
}

/// The probe start index of a key in a table of `cap` slots: its digest
/// reduced modulo the slot count.
spec fn start_of<K: HashKey>(k: K, cap: int) -> int {
    sdbm_hash(k.bytes_spec()) as int % cap
}

/// The index reached after `u` linear probe steps from `start`, wrapping at
/// `cap`. Meaningful for `0 <= start < cap` and `0 <= u < cap`.
spec fn idx_at(start: int, u: int, cap: int) -> int {
    if start + u < cap {
        start + u
    } else {
        start + u - cap
    }
}

/// The number of linear probe steps from `start` to index `i`, wrapping at
/// `cap`.
spec fn dist_to(start: int, i: int, cap: int) -> int {
    if i >= start {
        i - start
    } else {
        i + cap - start
    }
}

/// Slot `i` holds an entry whose key has model `m`.
spec fn occupied_with<K: HashKey, V>(s: Seq<Slot<K, V>>, i: int, m: K::M) -> bool {
    &&& s[i] is Occupied
    &&& s[i]->key.model() == m
}

/// Some slot holds an entry whose key has model `m`.
spec fn has_key<K: HashKey, V>(s: Seq<Slot<K, V>>, m: K::M) -> bool {
    exists|i: int| 0 <= i < s.len() && #[trigger] occupied_with(s, i, m)
}

/// The index of the slot holding the entry whose key has model `m`.
spec fn index_of_key<K: HashKey, V>(s: Seq<Slot<K, V>>, m: K::M) -> int {
    choose|i: int| 0 <= i < s.len() && #[trigger] occupied_with(s, i, m)
}

/// The value of the entry whose key has model `m`.
spec fn value_of_key<K: HashKey, V>(s: Seq<Slot<K, V>>, m: K::M) -> V {
    s[index_of_key(s, m)]->value
}

/// The mapping a slot sequence represents: each occupied slot contributes
/// its key's model and its value.
spec fn map_of_slots<K: HashKey, V>(s: Seq<Slot<K, V>>) -> Map<K::M, V> {
    Map::new(|m: K::M| has_key(s, m), |m: K::M| value_of_key(s, m))
}

/// The number of occupied slots.
spec fn num_occupied<K: HashKey, V>(s: Seq<Slot<K, V>>) -> nat
    decreases s.len(),
{
    if s.len() == 0 {
        0
    } else {
        num_occupied(s.drop_last()) + if s.last() is Occupied {
            1nat
        } else {
            0nat
        }
    }
}

/// No two occupied slots hold keys with the same model.
spec fn keys_unique<K: HashKey, V>(s: Seq<Slot<K, V>>) -> bool {
    forall|i: int, j: int|
        0 <= i < s.len() && 0 <= j < s.len() && i != j && #[trigger] s[i] is Occupied
            && #[trigger] s[j] is Occupied ==> s[i]->key.model() != s[j]->key.model()
}

/// No position on the probe path from `start`, for `steps` steps, is empty.
spec fn path_nonempty<K: HashKey, V>(s: Seq<Slot<K, V>>, start: int, steps: int) -> bool {
    forall|u: int| 0 <= u < steps ==> !(s[#[trigger] idx_at(start, u, s.len() as int)] is Empty)
}

/// Occupied slot `i` is reachable from its key's probe start: the probe path
/// up to it never crosses an empty slot, so a lookup scan cannot stop early.
spec fn slot_reachable<K: HashKey, V>(s: Seq<Slot<K, V>>, i: int) -> bool {
    path_nonempty(
        s,
        start_of(s[i]->key, s.len() as int),
        dist_to(start_of(s[i]->key, s.len() as int), i, s.len() as int),
    )
}

/// Every occupied slot is reachable from its key's probe start.
spec fn slots_reachable<K: HashKey, V>(s: Seq<Slot<K, V>>) -> bool {
    forall|i: int| 0 <= i < s.len() && (#[trigger] s[i]) is Occupied ==> slot_reachable(s, i)
}

/// The structural invariant of the backing sequence.
spec fn slots_inv<K: HashKey, V>(s: Seq<Slot<K, V>>) -> bool {
    &&& keys_unique(s)
    &&& slots_reachable(s)
}

/// The hash table: a contiguous backing sequence of slots plus the count of
/// occupied slots.
pub struct HashTable<Key, Value> {
    kvs: Vec<Slot<Key, Value>>,
    len: usize,
}

impl<Key: HashKey, Value> View for HashTable<Key, Value> {
    type V = Map<Key::M, Value>;

    /// The mapping the table represents.
    closed spec fn view(&self) -> Map<Key::M, Value> {
        map_of_slots(self.kvs@)
    }
}

impl<Key: HashKey, Value> HashTable<Key, Value> {
    /// The capacity: how many slots the backing sequence holds.
    pub closed spec fn spec_size(&self) -> int {
        self.kvs@.len() as int
    }

    /// The number of entries held.
    pub closed spec fn spec_len(&self) -> int {
        self.len as int
    }

    /// Well-formedness: the backing sequence is at least the initial
    /// capacity, keys are unique, every entry is reachable by probing from
    /// its start index, the entry count matches both the occupied slots and
    /// the view, and the occupancy never strays above the growth threshold
    /// by more than the entry that triggered it.
    pub closed spec fn wf(&self) -> bool {
        &&& 64 <= self.kvs@.len()
        &&& slots_inv(self.kvs@)
        &&& self.len as nat == num_occupied(self.kvs@)
        &&& self@.dom().finite()
        &&& self.len as int == self@.dom().len()
        &&& 10 * (self.len as int) <= 7 * (self.kvs@.len() as int) + 10
    }

    spec fn cap_i(&self) -> int {
        self.kvs@.len() as int
    }

    spec fn startk(&self, key: Key) -> int {
        start_of(key, self.cap_i())
    }

    /// What a successful probe reports: an occupied slot holding the key,
    /// reached over a probe path free of empty slots.
    spec fn found_post(&self, key: Key, p: int) -> bool {
        &&& 0 <= p < self.cap_i()
        &&& self.kvs@[p] is Occupied
        &&& self.kvs@[p]->key.model() == key.model()
        &&& path_nonempty(self.kvs@, self.startk(key), dist_to(self.startk(key), p, self.cap_i()))
    }

    /// What a probe that stopped at an empty slot reports.
    spec fn free_post(&self, key: Key, p: int) -> bool {
        &&& 0 <= p < self.cap_i()
        &&& self.kvs@[p] is Empty
        &&& path_nonempty(self.kvs@, self.startk(key), dist_to(self.startk(key), p, self.cap_i()))
    }

    /// A backing sequence of `cap` slots, all empty.
    fn empty_slots(cap: usize) -> (r: Vec<Slot<Key, Value>>)
        ensures
            r@.len() == cap,
            forall|i: int| 0 <= i < cap ==> (#[trigger] r@[i]) is Empty,
            num_occupied(r@) == 0,
    {
        let mut kvs: Vec<Slot<Key, Value>> = Vec::new();
        while kvs.len() < cap
            invariant
                kvs@.len() <= cap,
                forall|i: int| 0 <= i < kvs@.len() ==> (#[trigger] kvs@[i]) is Empty,
                num_occupied(kvs@) == 0,
            decreases cap - kvs@.len(),
        {
            proof {
                assert(kvs@.push(Slot::Empty).drop_last() =~= kvs@);
            }
            kvs.push(Slot::Empty);
        }
        kvs
    }

    /// Creates an empty table with the initial capacity.
    pub fn new() -> (r: Self)
        ensures
            r.wf(),
            r@ == Map::<Key::M, Value>::empty(),
            r.spec_size() == 64,
            r.spec_len() == 0,
    {
        let kvs = Self::empty_slots(INITIAL_CAPACITY);
        let r = HashTable { kvs, len: 0 };
        proof {
            lemma_no_occupied_empty_map(r.kvs@);
        }
        r
    }

    /// Probes for `key` from its start index: reports the slot holding it,
    /// or the first empty slot, or that the scan visited every slot without
    /// finding either.
    fn probe(&self, key: &Key) -> (r: Probe)
        requires
            self.wf(),
        ensures
            match r {
                Probe::Found(p) => self.found_post(*key, p as int) && self@.contains_key(
                    key.model(),
                ) && self@[key.model()] == self.kvs@[p as int]->value,
                Probe::Free(p) => self.free_post(*key, p as int) && !self@.contains_key(
                    key.model(),
                ),
                Probe::Full => !self@.contains_key(key.model()) && (forall|i: int|
                    0 <= i < self.cap_i() ==> !((#[trigger] self.kvs@[i]) is Empty)),
            },
    {
        let cap = self.kvs.len();
        let h = hash(key);
        let start = h % cap;
        let ghost starti = start as int;
        let ghost capi = cap as int;
        proof {
            assert(starti == start_of(*key, capi));
            assert(0 <= starti < capi);
        }
        let mut t: usize = 0;
        let mut pos = start;
        while t < cap
            invariant
                self.wf(),
                cap == self.kvs@.len(),
                capi == cap as int,
                0 <= starti < capi,
                starti == start_of(*key, capi),
                t <= cap,
                pos as int == idx_at(starti, t as int, capi),
                forall|u: int|
                    0 <= u < t ==> !(self.kvs@[#[trigger] idx_at(starti, u, capi)] is Empty),
                forall|u: int|
                    0 <= u < t ==> !occupied_with(
                        self.kvs@,
                        #[trigger] idx_at(starti, u, capi),
                        key.model(),
                    ),
            decreases cap - t,
        {
            match &self.kvs[pos] {
                Slot::Empty => {
                    proof {
                        assert(dist_to(starti, pos as int, capi) == t as int);
                        lemma_probe_stops_absent(self.kvs@, *key, t as int);
                    }
                    return Probe::Free(pos);
                },
                Slot::Occupied { key: k2, .. } => {
                    if k2.key_eq(key) {
                        proof {
                            assert(dist_to(starti, pos as int, capi) == t as int);
                            lemma_view_at(self.kvs@, pos as int);
                        }
                        return Probe::Found(pos);
                    }
                },
                Slot::Tombstone => {},
            }
            t = t + 1;
            pos = if pos + 1 == cap {
                0
            } else {
                pos + 1
            };
        }
        proof {
            assert forall|i: int| 0 <= i < capi implies !((#[trigger] self.kvs@[i]) is Empty) by {
                let u = dist_to(starti, i, capi);
                assert(idx_at(starti, u, capi) == i);
            }
            lemma_probe_stops_absent(self.kvs@, *key, cap as int);
        }
        Probe::Full
    }

    /// Looks up `key`, returning a reference to its value if an entry with
    /// an equal key is present.
    pub fn get(&self, key: &Key) -> (r: Option<&Value>)
        requires
            self.wf(),
        ensures
            match r {
                Some(v) => self@.contains_key(key.model()) && *v == self@[key.model()],
                None => !self@.contains_key(key.model()),
            },
    {
        match self.probe(key) {
            Probe::Found(p) => match &self.kvs[p] {
                Slot::Occupied { value, .. } => Some(value),
                _ => vstd::pervasive::unreached(),
            },
            _ => None,
        }
    }

    /// Looks up `key`, returning a mutable reference to its value if an
    /// entry with an equal key is present; writes through the reference
    /// update the entry and nothing else.
    pub fn get_mut(&mut self, key: &Key) -> (r: Option<&mut Value>)
        requires
            old(self).wf(),
        ensures
            final(self).wf(),
            final(self).spec_size() == old(self).spec_size(),
            final(self).spec_len() == old(self).spec_len(),
            r is None ==> !old(self)@.contains_key(key.model()) && *final(self) == *old(self),
            r is Some ==> old(self)@.contains_key(key.model()) && *r.unwrap() == old(
                self,
            )@[key.model()] && final(self)@ == old(self)@.insert(
                key.model(),
                *final(r.unwrap()),
            ),
    {
        match self.probe(key) {
            Probe::Found(p) => {
                let ghost s0 = self.kvs@;
                let ghost key0 = self.kvs@[p as int]->key;
                let r = self.value_at_mut(p);
                proof {
                    lemma_update_value(s0, p as int, key0, *final(r));
                    lemma_num_occupied_update(
                        s0,
                        p as int,
                        (Slot::Occupied { key: key0, value: *final(r) }),
                    );
                    assert(map_of_slots(s0).insert(key0.model(), *final(r)).dom()
                        =~= map_of_slots(s0).dom());
                }
                Some(r)
            },
            _ => None,
        }
    }

    /// A mutable reference to the value of the occupied slot at `p`; only
    /// that slot's value can change through it.
    fn value_at_mut(&mut self, p: usize) -> (r: &mut Value)
        requires
            p < old(self).kvs@.len(),
            old(self).kvs@[p as int] is Occupied,
        ensures
            *r == old(self).kvs@[p as int]->value,
            final(self).len == old(self).len,
            final(self).kvs@ == old(self).kvs@.update(
                p as int,
                (Slot::Occupied { key: old(self).kvs@[p as int]->key, value: *final(r) }),
            ),
    {
        let slot = &mut self.kvs[p];
        match slot {
            Slot::Occupied { value, .. } => value,
            _ => vstd::pervasive::unreached(),
        }
    }

    /// Inserts `key` with `value`: overwrites the value in place if an equal
    /// key is present, otherwise adds an entry. Grows the table (doubling
    /// its capacity and rehashing) first whenever the occupancy exceeds 70%.
    ///
    /// The bound on the entry count is a machine limit: the backing sequence
    /// must be able to double its length within `usize`.
    pub fn insert(&mut self, key: Key, value: Value)
        requires
            old(self).wf(),
            old(self).spec_len() < usize::MAX as int / 4,
        ensures
            final(self).wf(),
            final(self)@ == old(self)@.insert(key.model(), value),
            final(self).spec_len() == old(self).spec_len() + if old(self)@.contains_key(
                key.model(),
            ) {
                0int
            } else {
                1int
            },
            10 * old(self).spec_len() > 7 * old(self).spec_size() ==> final(self).spec_size() == 2
                * old(self).spec_size(),
            10 * old(self).spec_len() <= 7 * old(self).spec_size() ==> final(self).spec_size()
                == old(self).spec_size(),
    {
        let cap = self.kvs.len();
        let over = (self.len as u128) * 10 > (cap as u128) * 7;
        if over {
            proof {
                assert(7 * (cap as int) < 10 * (self.len as int));
                assert(cap as int * 2 <= usize::MAX as int);
            }
            self.resize(cap * 2);
        }
        match self.probe(&key) {
            Probe::Found(p) => {
                let ghost s0 = self.kvs@;
                let slot = &mut self.kvs[p];
                *slot = Slot::Occupied { key, value };
                proof {
                    lemma_update_value(s0, p as int, key, value);
                    lemma_num_occupied_update(s0, p as int, (Slot::Occupied { key, value }));
                }
            },
            Probe::Free(p) => {
                let ghost s0 = self.kvs@;
                let slot = &mut self.kvs[p];
                *slot = Slot::Occupied { key, value };
                self.len = self.len + 1;
                proof {
                    lemma_place(s0, p as int, key, value);
                    lemma_num_occupied_update(s0, p as int, (Slot::Occupied { key, value }));
                }
            },
            Probe::Full => {
                let c = self.kvs.len();
                self.resize(c);
                self.place_new(key, value);
            },
        }
    }

    /// Removes the entry with a key equal to `key`, returning its value, and
    /// leaves a tombstone in its slot so probe chains through it survive.
    pub fn remove(&mut self, key: Key) -> (r: Option<Value>)
        requires
            old(self).wf(),
        ensures
            final(self).wf(),
            final(self)@ == old(self)@.remove(key.model()),
            r == if old(self)@.contains_key(key.model()) {
                Some(old(self)@[key.model()])
            } else {
                None::<Value>
            },
            final(self).spec_len() == old(self).spec_len() - if old(self)@.contains_key(
                key.model(),
            ) {
                1int
            } else {
                0int
            },
            final(self).spec_size() == old(self).spec_size(),
    {
        match self.probe(&key) {
            Probe::Found(p) => {
                let ghost s0 = self.kvs@;
                let mut taken = Slot::Tombstone;
                core::mem::swap(&mut self.kvs[p], &mut taken);
                proof {
                    lemma_remove_slot(s0, p as int);
                    lemma_num_occupied_update(s0, p as int, Slot::Tombstone);
                }
                self.len = self.len - 1;
                match taken {
                    Slot::Occupied { value, .. } => Some(value),
                    _ => vstd::pervasive::unreached(),
                }
            },
            _ => {
                proof {
                    assert(self@.remove(key.model()) =~= self@);
                }
                None
            },
        }
    }

    /// The number of entries in the table.
    pub fn len(&self) -> (r: usize)
        requires
            self.wf(),
        ensures
            r == self@.dom().len(),
    {
        self.len
    }

    /// Whether the table holds no entry.
    pub fn is_empty(&self) -> (r: bool)
        requires
            self.wf(),
        ensures
            r <==> self@.dom().len() == 0,
    {
        self.len == 0
    }

    /// How many entries the table can hold without growing: the length of
    /// the backing sequence.
    pub fn size(&self) -> (r: usize)
        requires
            self.wf(),
        ensures
            r == self.spec_size(),
            64 <= r,
    {
        self.kvs.len()
    }

    /// Builds a table by inserting the pairs in order, so a later pair with
    /// an equal key overwrites an earlier one.
    ///
    /// The bound on the number of pairs is a machine limit: the backing
    /// sequence must be able to keep doubling within `usize`.
    pub fn from(v: Vec<(Key, Value)>) -> (r: Self)
        requires
            v@.len() <= usize::MAX as int / 4,
        ensures
            r.wf(),
            r@ == map_of_pairs(v@),
    {
        let ghost all = v@;
        let mut v = v;
        let mut table = Self::new();
        let ghost mut done: int = 0;
        while v.len() > 0
            invariant
                table.wf(),
                all.len() <= usize::MAX as int / 4,
                done + v@.len() == all.len(),
                0 <= done,
                v@ == all.skip(done),
                table@ == map_of_pairs(all.take(done)),
                table.spec_len() <= done,
            decreases v@.len(),
        {
            let ghost v0 = v@;
            let (key, value) = v.remove(0);
            proof {
                assert(key == all[done].0 && value == all[done].1);
                assert(v@ =~= all.skip(done + 1));
                assert(all.take(done + 1).drop_last() =~= all.take(done));
                assert(all.take(done + 1).last() == all[done]);
            }
            table.insert(key, value);
            proof {
                done = done + 1;
            }
        }
        proof {
            assert(all.take(done) =~= all);
        }
        table
    }

    /// Adds an entry for a key known to be absent, in a table without
    /// tombstones that still has room.
    fn place_new(&mut self, key: Key, value: Value)
        requires
            old(self).wf(),
            !old(self)@.contains_key(key.model()),
            forall|i: int|
                0 <= i < old(self).kvs@.len() ==> !((#[trigger] old(self).kvs@[i]) is Tombstone),
            old(self).spec_len() < old(self).spec_size(),
            10 * (old(self).spec_len() + 1) <= 7 * old(self).spec_size() + 10,
        ensures
            final(self).wf(),
            final(self)@ == old(self)@.insert(key.model(), value),
            final(self).spec_len() == old(self).spec_len() + 1,
            final(self).spec_size() == old(self).spec_size(),
            forall|i: int|
                0 <= i < final(self).kvs@.len() ==> !((#[trigger] final(self).kvs@[i])
                    is Tombstone),
    {
        let ghost s0 = self.kvs@;
        match self.probe(&key) {
            Probe::Free(p) => {
                let room = self.kvs.len();
                proof {
                    assert(self.len < room);
                }
                let slot = &mut self.kvs[p];
                *slot = Slot::Occupied { key, value };
                self.len = self.len + 1;
                proof {
                    lemma_place(s0, p as int, key, value);
                    lemma_num_occupied_update(s0, p as int, (Slot::Occupied { key, value }));
                    assert(final(self)@.dom() =~= old(self)@.dom().insert(key.model()));
                }
            },
            Probe::Found(_) => {
                proof {
                    assert(false);
                }
                vstd::pervasive::unreached()
            },
            Probe::Full => {
                proof {
                    assert forall|i: int| 0 <= i < s0.len() implies (#[trigger] s0[i]) is Occupied
                    by {
                        assert(!(s0[i] is Empty));
                        assert(!(s0[i] is Tombstone));
                    }
                    lemma_num_occupied_all(s0);
                    assert(false);
                }
                vstd::pervasive::unreached()
            },
        }
    }

    /// Rebuilds the backing sequence with `new_cap` slots, rehashing every
    /// entry into fresh storage; accumulated tombstones are dropped, and
    /// every entry is reachable from its probe start under the new capacity.
    fn resize(&mut self, new_cap: usize)
        requires
            old(self).wf(),
            64 <= new_cap,
            old(self).spec_size() <= new_cap as int,
            old(self).spec_len() < new_cap as int,
        ensures
            final(self).wf(),
            final(self)@ == old(self)@,
            final(self).spec_len() == old(self).spec_len(),
            final(self).spec_size() == new_cap as int,
            forall|i: int|
                0 <= i < final(self).kvs@.len() ==> !((#[trigger] final(self).kvs@[i])
                    is Tombstone),
    {
        let mut source = Self::empty_slots(new_cap);
        core::mem::swap(&mut self.kvs, &mut source);
        self.len = 0;
        let ghost old_slots = source@;
        proof {
            lemma_no_occupied_empty_map(self.kvs@);
            assert(old_slots.skip(old_slots.len() as int) =~= Seq::<Slot<Key, Value>>::empty());
            lemma_no_occupied_empty_map(old_slots.skip(old_slots.len() as int));
            assert(source@ =~= old_slots.take(source@.len() as int));
        }
        while source.len() > 0
            invariant
                self.wf(),
                self.kvs@.len() == new_cap,
                old(self).wf(),
                old(self).kvs@ == old_slots,
                old(self).spec_len() < new_cap as int,
                10 * old(self).spec_len() <= 7 * (new_cap as int) + 10,
                source@.len() <= old_slots.len(),
                source@ == old_slots.take(source@.len() as int),
                self@ == map_of_slots(old_slots.skip(source@.len() as int)),
                self@.dom() <= old(self)@.dom(),
                forall|i: int| 0 <= i < new_cap ==> !((#[trigger] self.kvs@[i]) is Tombstone),
            decreases source@.len(),
        {
            let ghost j = source@.len() - 1;
            let slot = source.pop().unwrap();
            proof {
                assert(old_slots.take(j + 1).last() == old_slots[j]);
                assert(old_slots.take(j + 1).drop_last() =~= old_slots.take(j));
                assert(source@ =~= old_slots.take(j));
                assert(slot == old_slots[j]);
                lemma_map_suffix(old_slots, j);
            }
            match slot {
                Slot::Occupied { key, value } => {
                    proof {
                        let m = key.model();
                        assert(occupied_with(old_slots, j, m));
                        assert(has_key(old_slots, m));
                        if has_key(old_slots.skip(j + 1), m) {
                            let i = index_of_key(old_slots.skip(j + 1), m);
                            assert(occupied_with(old_slots.skip(j + 1), i, m));
                            assert(old_slots.skip(j + 1)[i] == old_slots[j + 1 + i]);
                            assert(occupied_with(old_slots, j + 1 + i, m));
                            assert(false);
                        }
                        assert(!self@.contains_key(m));
                        vstd::set_lib::lemma_len_subset(
                            self@.dom(),
                            old(self)@.dom().remove(m),
                        );
                        assert(self@.dom().len() <= old(self)@.dom().len() - 1);
                    }
                    self.place_new(key, value);
                    proof {
                        assert(self@ == map_of_slots(old_slots.skip(j)));
                    }
                },
                _ => {
                    proof {
                        assert(self@ == map_of_slots(old_slots.skip(j)));
                    }
                },
            }
        }
        proof {
            assert(old_slots.skip(0) =~= old_slots);
        }
    }
}

/// The result of a probe scan.
enum Probe {
    Found(usize),
    Free(usize),
    Full,
}

/// The mapping described by a sequence of pairs inserted in order: a later
/// pair with an equal key overwrites an earlier one.
pub open spec fn map_of_pairs<K: HashKey, V>(s: Seq<(K, V)>) -> Map<K::M, V>
    decreases s.len(),
{
    if s.len() == 0 {
        Map::empty()
    } else {
        map_of_pairs(s.drop_last()).insert(s.last().0.model(), s.last().1)
    }
}

impl<Key: HashKey, Value> Default for HashTable<Key, Value> {
    /// An empty table with the initial capacity.
    fn default() -> (r: Self)
        ensures
            r.wf(),
            r@ == Map::<Key::M, Value>::empty(),
            r.spec_size() == 64,
            r.spec_len() == 0,
    {
        Self::new()
    }
}

/// A sequence with no occupied slot satisfies the invariant and represents
/// the empty mapping.
proof fn lemma_no_occupied_empty_map<K: HashKey, V>(s: Seq<Slot<K, V>>)
    requires
        forall|i: int| 0 <= i < s.len() ==> !((#[trigger] s[i]) is Occupied),
    ensures
        map_of_slots(s) == Map::<K::M, V>::empty(),
        slots_inv(s),
        num_occupied(s) == 0,
    decreases s.len(),
{
    if s.len() > 0 {
        assert forall|i: int| 0 <= i < s.drop_last().len() implies !((#[trigger] s.drop_last()[i]) is Occupied) by {
            assert(s.drop_last()[i] == s[i]);
        }
        lemma_no_occupied_empty_map(s.drop_last());
    }
    assert forall|m: K::M| !(#[trigger] has_key(s, m)) by {
        if has_key(s, m) {
            let i = choose|i: int| 0 <= i < s.len() && #[trigger] occupied_with(s, i, m);
            assert(s[i] is Occupied);
        }
    }
    assert(map_of_slots(s) =~= Map::<K::M, V>::empty());
}

/// Updating one slot shifts the occupied count by the difference the update
/// makes at that position.
proof fn lemma_num_occupied_update<K: HashKey, V>(s: Seq<Slot<K, V>>, i: int, x: Slot<K, V>)
    requires
        0 <= i < s.len(),
    ensures
        num_occupied(s.update(i, x)) as int == num_occupied(s) as int - (if s[i] is Occupied {
            1int
        } else {
            0int
        }) + (if x is Occupied {
            1int
        } else {
            0int
        }),
    decreases s.len(),
{
    let s2 = s.update(i, x);
    if i == s.len() - 1 {
        assert(s2.drop_last() =~= s.drop_last());
        assert(s2.last() == x);
    } else {
        assert(s2.drop_last() =~= s.drop_last().update(i, x));
        assert(s2.last() == s.last());
        lemma_num_occupied_update(s.drop_last(), i, x);
    }
}

/// If every slot is occupied, the occupied count is the whole length.
proof fn lemma_num_occupied_all<K: HashKey, V>(s: Seq<Slot<K, V>>)
    requires
        forall|i: int| 0 <= i < s.len() ==> (#[trigger] s[i]) is Occupied,
    ensures
        num_occupied(s) == s.len(),
    decreases s.len(),
{
    if s.len() > 0 {
        assert forall|i: int| 0 <= i < s.drop_last().len() implies (#[trigger] s.drop_last()[i]) is Occupied by {
            assert(s.drop_last()[i] == s[i]);
        }
        lemma_num_occupied_all(s.drop_last());
    }
}

/// The slot holding a key determines the view at that key's model: with
/// unique keys, the chosen witness index is that slot.
proof fn lemma_view_at<K: HashKey, V>(s: Seq<Slot<K, V>>, p: int)
    requires
        keys_unique(s),
        0 <= p < s.len(),
        s[p] is Occupied,
    ensures
        has_key(s, s[p]->key.model()),
        map_of_slots(s).contains_key(s[p]->key.model()),
        map_of_slots(s)[s[p]->key.model()] == s[p]->value,
        index_of_key(s, s[p]->key.model()) == p,
{
    let m = s[p]->key.model();
    assert(occupied_with(s, p, m));
    let i = index_of_key(s, m);
    assert(occupied_with(s, i, m));
}

/// A probe that misses `key` at every step taken so far, and then either
/// stops at an empty slot or has visited every slot, proves the key absent:
/// were it present, its slot would lie on the probed path.
proof fn lemma_probe_stops_absent<K: HashKey, V>(s: Seq<Slot<K, V>>, key: K, steps: int)
    requires
        slots_inv(s),
        s.len() > 0,
        0 <= steps <= s.len(),
        forall|u: int|
            0 <= u < steps ==> !(s[#[trigger] idx_at(
                start_of(key, s.len() as int),
                u,
                s.len() as int,
            )] is Empty),
        forall|u: int|
            0 <= u < steps ==> !occupied_with(
                s,
                #[trigger] idx_at(start_of(key, s.len() as int), u, s.len() as int),
                key.model(),
            ),
        steps < s.len() ==> s[idx_at(start_of(key, s.len() as int), steps, s.len() as int)] is Empty,
        0 <= start_of(key, s.len() as int) < s.len(),
    ensures
        !has_key(s, key.model()),
        !map_of_slots(s).contains_key(key.model()),
{
    let cap = s.len() as int;
    let start = start_of(key, cap);
    if has_key(s, key.model()) {
        let j = choose|i: int| 0 <= i < s.len() && #[trigger] occupied_with(s, i, key.model());
        s[j]->key.model_determines_bytes(&key);
        assert(start_of(s[j]->key, cap) == start);
        assert(slot_reachable(s, j));
        let d = dist_to(start, j, cap);
        assert(0 <= d < cap);
        assert(idx_at(start, d, cap) == j);
        if d < steps {
            assert(!occupied_with(s, idx_at(start, d, cap), key.model()));
            assert(false);
        } else {
            assert(steps < s.len());
            assert(!(s[idx_at(start, steps, cap)] is Empty));
            assert(false);
        }
    }
}

/// Writing a fresh entry into the empty slot its probe found preserves the
/// invariant and adds exactly that entry to the mapping.
proof fn lemma_place<K: HashKey, V>(s: Seq<Slot<K, V>>, p: int, key: K, value: V)
    requires
        slots_inv(s),
        0 <= p < s.len(),
        s[p] is Empty,
        path_nonempty(
            s,
            start_of(key, s.len() as int),
            dist_to(start_of(key, s.len() as int), p, s.len() as int),
        ),
        !has_key(s, key.model()),
    ensures
        slots_inv(s.update(p, (Slot::Occupied { key, value }))),
        map_of_slots(s.update(p, (Slot::Occupied { key, value }))) == map_of_slots(s).insert(
            key.model(),
            value,
        ),
{
    let cap = s.len() as int;
    let s2 = s.update(p, (Slot::Occupied { key, value }));
    let m = key.model();
    assert forall|i: int, j: int|
        0 <= i < s2.len() && 0 <= j < s2.len() && i != j && #[trigger] s2[i] is Occupied
            && #[trigger] s2[j] is Occupied implies s2[i]->key.model() != s2[j]->key.model() by {
        if i == p {
            if s2[j]->key.model() == m {
                assert(occupied_with(s, j, m));
            }
        } else if j == p {
            if s2[i]->key.model() == m {
                assert(occupied_with(s, i, m));
            }
        }
    }
    assert forall|i: int| 0 <= i < s2.len() && (#[trigger] s2[i]) is Occupied implies slot_reachable(
        s2,
        i,
    ) by {
        if i == p {
            let st = start_of(key, cap);
            let d = dist_to(st, p, cap);
            assert forall|u: int| 0 <= u < d implies !(s2[#[trigger] idx_at(st, u, cap)] is Empty) by {
                assert(!(s[idx_at(st, u, cap)] is Empty));
            }
        } else {
            let st = start_of(s[i]->key, cap);
            let d = dist_to(st, i, cap);
            assert(slot_reachable(s, i));
            assert forall|u: int| 0 <= u < d implies !(s2[#[trigger] idx_at(st, u, cap)] is Empty) by {
                assert(!(s[idx_at(st, u, cap)] is Empty));
            }
        }
    }
    lemma_view_at(s2, p);
    assert forall|m2: K::M| #[trigger] has_key(s2, m2) implies m2 == m || has_key(s, m2) by {
        let i = choose|i: int| 0 <= i < s2.len() && #[trigger] occupied_with(s2, i, m2);
        if i != p {
            assert(occupied_with(s, i, m2));
        }
    }
    assert forall|m2: K::M| m2 != m && #[trigger] has_key(s, m2) implies has_key(s2, m2)
        && value_of_key(s2, m2) == value_of_key(s, m2) by {
        let i = index_of_key(s, m2);
        assert(occupied_with(s, i, m2));
        assert(i != p);
        assert(occupied_with(s2, i, m2));
        lemma_view_at(s, i);
        lemma_view_at(s2, i);
    }
    assert(map_of_slots(s2) =~= map_of_slots(s).insert(m, value));
}

/// Overwriting an occupied slot with an entry whose key has the same model
/// preserves the invariant and updates exactly that entry of the mapping.
proof fn lemma_update_value<K: HashKey, V>(s: Seq<Slot<K, V>>, p: int, key: K, value: V)
    requires
        slots_inv(s),
        0 <= p < s.len(),
        s[p] is Occupied,
        key.model() == s[p]->key.model(),
    ensures
        slots_inv(s.update(p, (Slot::Occupied { key, value }))),
        map_of_slots(s.update(p, (Slot::Occupied { key, value }))) == map_of_slots(s).insert(
            key.model(),
            value,
        ),
{
    let cap = s.len() as int;
    let s2 = s.update(p, (Slot::Occupied { key, value }));
    let m = key.model();
    key.model_determines_bytes(&s[p]->key);
    assert(start_of(key, cap) == start_of(s[p]->key, cap));
    assert forall|i: int, j: int|
        0 <= i < s2.len() && 0 <= j < s2.len() && i != j && #[trigger] s2[i] is Occupied
            && #[trigger] s2[j] is Occupied implies s2[i]->key.model() != s2[j]->key.model() by {
        if i == p {
            assert(s[j] is Occupied && s2[j]->key.model() == s[j]->key.model());
            assert(occupied_with(s, p, m));
        } else if j == p {
            assert(s[i] is Occupied && s2[i]->key.model() == s[i]->key.model());
            assert(occupied_with(s, p, m));
        }
    }
    assert forall|i: int| 0 <= i < s2.len() && (#[trigger] s2[i]) is Occupied implies slot_reachable(
        s2,
        i,
    ) by {
        let st = start_of(s2[i]->key, cap);
        let d = dist_to(st, i, cap);
        assert(s[i] is Occupied);
        assert(slot_reachable(s, i));
        if i == p {
            assert(st == start_of(s[p]->key, cap));
            assert(dist_to(st, i, cap) == d);
        }
        assert forall|u: int| 0 <= u < d implies !(s2[#[trigger] idx_at(st, u, cap)] is Empty) by {
            assert(!(s[idx_at(st, u, cap)] is Empty));
        }
    }
    lemma_view_at(s, p);
    lemma_view_at(s2, p);
    assert forall|m2: K::M| #[trigger] has_key(s2, m2) implies m2 == m || has_key(s, m2) by {
        let i = choose|i: int| 0 <= i < s2.len() && #[trigger] occupied_with(s2, i, m2);
        if i != p {
            assert(occupied_with(s, i, m2));
        }
    }
    assert forall|m2: K::M| m2 != m && #[trigger] has_key(s, m2) implies has_key(s2, m2)
        && value_of_key(s2, m2) == value_of_key(s, m2) by {
        let i = index_of_key(s, m2);
        assert(occupied_with(s, i, m2));
        assert(i != p);
        assert(occupied_with(s2, i, m2));
        lemma_view_at(s, i);
        lemma_view_at(s2, i);
    }
    assert(map_of_slots(s2) =~= map_of_slots(s).insert(m, value));
}

/// Replacing an occupied slot with a tombstone preserves the invariant and
/// removes exactly that entry from the mapping; the tombstone keeps every
/// probe path through the slot unbroken.
proof fn lemma_remove_slot<K: HashKey, V>(s: Seq<Slot<K, V>>, p: int)
    requires
        slots_inv(s),
        0 <= p < s.len(),
        s[p] is Occupied,
    ensures
        slots_inv(s.update(p, Slot::Tombstone)),
        map_of_slots(s.update(p, Slot::Tombstone)) == map_of_slots(s).remove(s[p]->key.model()),
{
    let cap = s.len() as int;
    let s2 = s.update(p, Slot::Tombstone);
    let m = s[p]->key.model();
    lemma_view_at(s, p);
    assert forall|i: int| 0 <= i < s2.len() && (#[trigger] s2[i]) is Occupied implies slot_reachable(
        s2,
        i,
    ) by {
        let st = start_of(s2[i]->key, cap);
        let d = dist_to(st, i, cap);
        assert(i != p);
        assert(s[i] is Occupied);
        assert(slot_reachable(s, i));
        assert forall|u: int| 0 <= u < d implies !(s2[#[trigger] idx_at(st, u, cap)] is Empty) by {
            assert(!(s[idx_at(st, u, cap)] is Empty));
        }
    }
    assert forall|m2: K::M| #[trigger] has_key(s2, m2) implies m2 != m && has_key(s, m2) by {
        let i = choose|i: int| 0 <= i < s2.len() && #[trigger] occupied_with(s2, i, m2);
        assert(i != p);
        assert(occupied_with(s, i, m2));
        if m2 == m {
            assert(occupied_with(s, p, m));
            assert(false);
        }
    }
    assert forall|m2: K::M| m2 != m && #[trigger] has_key(s, m2) implies has_key(s2, m2)
        && value_of_key(s2, m2) == value_of_key(s, m2) by {
        let i = index_of_key(s, m2);
        assert(occupied_with(s, i, m2));
        assert(i != p);
        assert(occupied_with(s2, i, m2));
        lemma_view_at(s, i);
        lemma_view_at(s2, i);
    }
    assert(map_of_slots(s2) =~= map_of_slots(s).remove(m));
}

/// Splitting one slot off the front of a suffix splits its mapping: the
/// suffix from `j` maps exactly what the suffix from `j + 1` maps, plus the
/// entry of slot `j` if it is occupied.
proof fn lemma_map_suffix<K: HashKey, V>(s: Seq<Slot<K, V>>, j: int)
    requires
        keys_unique(s),
        0 <= j < s.len(),
    ensures
        s[j] is Occupied ==> map_of_slots(s.skip(j)) == map_of_slots(s.skip(j + 1)).insert(
            s[j]->key.model(),
            s[j]->value,
        ),
        !(s[j] is Occupied) ==> map_of_slots(s.skip(j)) == map_of_slots(s.skip(j + 1)),
{
    let a = s.skip(j);
    let b = s.skip(j + 1);
    assert(forall|i: int| 0 <= i < a.len() ==> a[i] == s[j + i]);
    assert(forall|i: int| 0 <= i < b.len() ==> b[i] == s[j + 1 + i]);
    assert forall|m2: K::M| #[trigger] has_key(b, m2) implies has_key(a, m2) && value_of_key(a, m2)
        == value_of_key(b, m2) by {
        let ib = index_of_key(b, m2);
        assert(occupied_with(b, ib, m2));
        assert(b[ib] == s[j + 1 + ib]);
        assert(a[ib + 1] == s[j + 1 + ib]);
        assert(occupied_with(a, ib + 1, m2));
        assert(has_key(a, m2));
        let ia = index_of_key(a, m2);
        assert(occupied_with(a, ia, m2));
        assert(a[ia] == s[j + ia]);
        assert(occupied_with(s, j + ia, m2));
        assert(occupied_with(s, j + 1 + ib, m2));
        assert(j + ia == j + 1 + ib);
    }
    if s[j] is Occupied {
        let m = s[j]->key.model();
        assert(occupied_with(a, 0, m));
        assert(has_key(a, m));
        if has_key(b, m) {
            let ib = index_of_key(b, m);
            assert(occupied_with(b, ib, m));
            assert(occupied_with(s, j + 1 + ib, m));
            assert(occupied_with(s, j, m));
            assert(false);
        }
        let ia = index_of_key(a, m);
        assert(occupied_with(a, ia, m));
        assert(occupied_with(s, j + ia, m));
        assert(occupied_with(s, j, m));
        assert(ia == 0);
        assert(value_of_key(a, m) == s[j]->value);
        assert forall|m2: K::M| #[trigger] has_key(a, m2) implies m2 == m || has_key(b, m2) by {
            let ia2 = index_of_key(a, m2);
            assert(occupied_with(a, ia2, m2));
            assert(a[ia2] == s[j + ia2]);
            if ia2 == 0 {
            } else {
                assert(b[ia2 - 1] == s[j + ia2]);
                assert(occupied_with(b, ia2 - 1, m2));
            }
        }
        assert(map_of_slots(a) =~= map_of_slots(b).insert(m, s[j]->value));
    } else {
        assert forall|m2: K::M| #[trigger] has_key(a, m2) implies has_key(b, m2) by {
            let ia = index_of_key(a, m2);
            assert(occupied_with(a, ia, m2));
            assert(a[ia] == s[j + ia]);
            assert(ia != 0);
            assert(b[ia - 1] == s[j + ia]);
            assert(occupied_with(b, ia - 1, m2));
        }
        assert(map_of_slots(a) =~= map_of_slots(b));
    }
}

} // verus!
