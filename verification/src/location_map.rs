//! A map keyed by location that remembers the order in which keys arrived.
//!
//! Keys and values lie in two lists, position by position. Beside them the
//! map keeps a hashed index: keys are sorted into buckets, the index knows the
//! key of each bucket that came last, and every key knows the one of its bucket
//! that came before it. A lookup walks the bucket of its key only.

use crate::location::Location;
use std::collections::HashMap;
use vstd::prelude::*;

verus! {

broadcast use vstd::std_specs::hash::group_hash_axioms;

/// The bucket of a location.
pub open spec fn bucket_of(location: Location) -> u64 {
    location.x ^ (location.y << 1 | location.y >> 63) ^ (location.z << 2 | location.z >> 62)
}

/// Whether following the links from position `from` comes to position `to`.
pub open spec fn reaches(links: Seq<Option<usize>>, from: int, to: int) -> bool
    decreases from,
{
    from == to || (0 <= from < links.len() && (match links[from] {
        Some(j) => j < from && reaches(links, j as int, to),
        None => false,
    }))
}

/// A link added at the end changes no way through the links before it.
pub proof fn lemma_reaches_push(links: Seq<Option<usize>>, link: Option<usize>, from: int, to: int)
    requires
        reaches(links, from, to),
        0 <= from < links.len(),
    ensures
        reaches(links.push(link), from, to),
    decreases from,
{
    if from != to {
        let j = links[from].unwrap();
        lemma_reaches_push(links, link, j as int, to);
        assert(links.push(link)[from] == links[from]);
    }
}

/// The position of `key` in `keys`, or `None` when it does not occur.
pub open spec fn position_of(keys: Seq<Location>, key: Location) -> Option<int> {
    if keys.contains(key) {
        Some(keys.index_of(key))
    } else {
        None
    }
}

/// The map that sends each key to the value stored beside it.
pub open spec fn pairing<V>(keys: Seq<Location>, values: Seq<V>) -> Map<Location, V> {
    Map::new(|k: Location| keys.contains(k), |k: Location| values[keys.index_of(k)])
}

/// In a sequence without repetition, an element is found where it stands.
pub proof fn lemma_position_unique(keys: Seq<Location>, i: int)
    requires
        keys.no_duplicates(),
        0 <= i < keys.len(),
    ensures
        keys.contains(keys[i]),
        keys.index_of(keys[i]) == i,
{
    let j = keys.index_of(keys[i]);
    assert(keys[j] == keys[i]);
}

/// Appending a fresh key extends the pairing by one entry.
pub proof fn lemma_pairing_push<V>(keys: Seq<Location>, values: Seq<V>, key: Location, value: V)
    requires
        keys.no_duplicates(),
        keys.len() == values.len(),
        !keys.contains(key),
    ensures
        keys.push(key).no_duplicates(),
        pairing(keys.push(key), values.push(value)) == pairing(keys, values).insert(key, value),
{
    let keys2 = keys.push(key);
    let values2 = values.push(value);
    assert forall|i: int, j: int| 0 <= i < keys2.len() && 0 <= j < keys2.len() && i != j implies keys2[i]
        != keys2[j] by {
        if i < keys.len() {
            assert(keys.contains(keys[i]));
        }
        if j < keys.len() {
            assert(keys.contains(keys[j]));
        }
    }
    assert forall|k: Location| keys2.contains(k) <==> (keys.contains(k) || k == key) by {
        if keys.contains(k) {
            let i = keys.index_of(k);
            assert(keys2[i] == k);
        }
        if k == key {
            assert(keys2[keys.len() as int] == k);
        }
        if keys2.contains(k) {
            let i = keys2.index_of(k);
            if i < keys.len() {
                assert(keys[i] == k);
            }
        }
    }
    assert forall|k: Location| keys2.contains(k) implies #[trigger] pairing(keys2, values2)[k] == pairing(
        keys,
        values,
    ).insert(key, value)[k] by {
        let i = keys2.index_of(k);
        lemma_position_unique(keys2, i);
        if k != key {
            let j = keys.index_of(k);
            assert(keys2[j] == k);
            lemma_position_unique(keys2, j);
        } else {
            lemma_position_unique(keys2, keys.len() as int);
        }
    }
    assert(pairing(keys2, values2) =~= pairing(keys, values).insert(key, value));
}

/// Replacing the value beside a key rebinds that key and no other.
pub proof fn lemma_pairing_update<V>(keys: Seq<Location>, values: Seq<V>, i: int, value: V)
    requires
        keys.no_duplicates(),
        keys.len() == values.len(),
        0 <= i < keys.len(),
    ensures
        pairing(keys, values.update(i, value)) == pairing(keys, values).insert(keys[i], value),
{
    lemma_position_unique(keys, i);
    assert forall|k: Location| keys.contains(k) implies #[trigger] pairing(keys, values.update(i, value))[k]
        == pairing(keys, values).insert(keys[i], value)[k] by {
        let j = keys.index_of(k);
        lemma_position_unique(keys, j);
    }
    assert(pairing(keys, values.update(i, value)) =~= pairing(keys, values).insert(keys[i], value));
}

/// Whatever replaces the value beside a key, the key is rebound to it and no
/// other binding changes.
pub proof fn lemma_pairing_update_any<V>(keys: Seq<Location>, values: Seq<V>, i: int)
    requires
        keys.no_duplicates(),
        keys.len() == values.len(),
        0 <= i < keys.len(),
    ensures
        forall|value: V| #[trigger]
            pairing(keys, values.update(i, value)) == pairing(keys, values).insert(keys[i], value),
{
    assert forall|value: V| #[trigger]
        pairing(keys, values.update(i, value)) == pairing(keys, values).insert(keys[i], value) by {
        lemma_pairing_update(keys, values, i, value);
    }
}

/// A map from locations to values of type `V`.
///
/// Keys are kept in the order in which they were first inserted; inserting
/// under a key that is present replaces its value and keeps its place.
pub struct LocationMap<V> {
    keys: Vec<Location>,
    values: Vec<V>,
    /// For each bucket, the position of its key that came last.
    heads: HashMap<u64, usize>,
    /// For each position, the position of the key of the same bucket that
    /// came before it.
    links: Vec<Option<usize>>,
}

impl<V> View for LocationMap<V> {
    type V = Map<Location, V>;

    /// The bindings of the map.
    open spec fn view(&self) -> Map<Location, V> {
        pairing(self.keys(), self.values())
    }
}

impl<V> LocationMap<V> {
    /// The keys, in order of first insertion.
    pub closed spec fn keys(&self) -> Seq<Location> {
        self.keys@
    }

    /// The values, each at the position of its key.
    pub closed spec fn values(&self) -> Seq<V> {
        self.values@
    }

    /// The hashed index is sound: every link and every head leads to an
    /// earlier key of the same bucket, and every key is reached from the head
    /// of its bucket.
    pub closed spec fn index_wf(&self) -> bool {
        &&& self.links@.len() == self.keys@.len()
        &&& forall|i: int|
            0 <= i < self.links@.len() ==> ((#[trigger] self.links@[i]) matches Some(j) ==> j < i
                && bucket_of(self.keys@[j as int]) == bucket_of(self.keys@[i]))
        &&& forall|h: u64| #[trigger]
            self.heads@.contains_key(h) ==> self.heads@[h] < self.keys@.len() && bucket_of(
                self.keys@[self.heads@[h] as int],
            ) == h
        &&& forall|i: int|
            0 <= i < self.keys@.len() ==> self.heads@.contains_key(bucket_of(#[trigger] self.keys@[i]))
                && reaches(self.links@, self.heads@[bucket_of(self.keys@[i])] as int, i)
    }

    /// No key occurs twice, every key has its value, and the index is sound.
    pub open spec fn wf(&self) -> bool {
        &&& self.keys().no_duplicates()
        &&& self.keys().len() == self.values().len()
        &&& self.index_wf()
    }

    /// The empty map.
    pub fn new() -> (map: Self)
        ensures
            map.wf(),
            map.keys() == Seq::<Location>::empty(),
            map.values() == Seq::<V>::empty(),
            map@ == Map::<Location, V>::empty(),
    {
        let map = LocationMap {
            keys: Vec::new(),
            values: Vec::new(),
            heads: HashMap::new(),
            links: Vec::new(),
        };
        assert(map@ =~= Map::<Location, V>::empty());
        map
    }

    /// The bucket of a location.
    fn bucket(key: &Location) -> (h: u64)
        ensures
            h == bucket_of(*key),
    {
        key.x ^ (key.y << 1 | key.y >> 63) ^ (key.z << 2 | key.z >> 62)
    }

    /// The number of keys.
    pub fn len(&self) -> (n: usize)
        requires
            self.wf(),
        ensures
            n == self.keys().len(),
    {
        self.keys.len()
    }

    /// Where `key` stands among the keys, if it is present.
    pub fn position(&self, key: &Location) -> (found: Option<usize>)
        requires
            self.wf(),
        ensures
            found is Some <==> self@.contains_key(*key),
            found matches Some(i) ==> i < self.keys().len() && self.keys()[i as int] == *key
                && position_of(self.keys(), *key) == Some(i as int),
    {
        let h = Self::bucket(key);
        let mut at: usize = match self.heads.get(&h) {
            Some(head) => *head,
            None => {
                proof {
                    if self.keys@.contains(*key) {
                        let p = self.keys@.index_of(*key);
                        assert(self.heads@.contains_key(bucket_of(self.keys@[p])));
                    }
                }
                return None;
            },
        };
        proof {
            if self.keys@.contains(*key) {
                let p = self.keys@.index_of(*key);
                assert(reaches(self.links@, self.heads@[bucket_of(self.keys@[p])] as int, p));
            }
        }
        loop
            invariant
                self.wf(),
                h == bucket_of(*key),
                at < self.keys@.len(),
                self.keys@.contains(*key) ==> reaches(self.links@, at as int, self.keys@.index_of(*key)),
            decreases at,
        {
            if self.keys[at] == *key {
                proof {
                    lemma_position_unique(self.keys@, at as int);
                }
                return Some(at);
            }
            match self.links[at] {
                Some(before) => {
                    at = before;
                },
                None => {
                    proof {
                        if self.keys@.contains(*key) {
                            let p = self.keys@.index_of(*key);
                            assert(self.keys@[p] == *key);
                        }
                    }
                    return None;
                },
            }
        }
    }

    /// Whether `key` is bound.
    pub fn contains_key(&self, key: &Location) -> (present: bool)
        requires
            self.wf(),
        ensures
            present == self@.contains_key(*key),
    {
        self.position(key).is_some()
    }

    /// The value bound to `key`, if any.
    pub fn get(&self, key: &Location) -> (value: Option<&V>)
        requires
            self.wf(),
        ensures
            value is Some <==> self@.contains_key(*key),
            value matches Some(v) ==> *v == self@[*key],
    {
        match self.position(key) {
            Some(i) => Some(&self.values[i]),
            None => None,
        }
    }

    /// The value at position `i`.
    pub fn value_at(&self, i: usize) -> (value: &V)
        requires
            self.wf(),
            i < self.keys().len(),
        ensures
            *value == self.values()[i as int],
            *value == self@[self.keys()[i as int]],
    {
        proof {
            lemma_position_unique(self.keys@, i as int);
        }
        &self.values[i]
    }

    /// Binds `key` to `value`. A key that is present keeps its position and
    /// loses its earlier value; a new key goes to the end.
    pub fn insert(&mut self, key: Location, value: V)
        requires
            old(self).wf(),
        ensures
            final(self).wf(),
            final(self)@ == old(self)@.insert(key, value),
            old(self)@.contains_key(key) ==> final(self).keys() == old(self).keys()
                && final(self).values() == old(self).values().update(
                old(self).keys().index_of(key),
                value,
            ),
            !old(self)@.contains_key(key) ==> final(self).keys() == old(self).keys().push(key)
                && final(self).values() == old(self).values().push(value),
    {
        match self.position(&key) {
            Some(i) => {
                proof {
                    lemma_pairing_update(self.keys@, self.values@, i as int, value);
                }
                self.values.set(i, value);
            },
            None => {
                proof {
                    lemma_pairing_push(self.keys@, self.values@, key, value);
                }
                let h = Self::bucket(&key);
                let link: Option<usize> = match self.heads.get(&h) {
                    Some(head) => Some(*head),
                    None => None,
                };
                let ghost before = *self;
                let n = self.keys.len();
                self.links.push(link);
                self.keys.push(key);
                self.values.push(value);
                self.heads.insert(h, n);
                proof {
                    assert forall|i: int| 0 <= i < self.links@.len() implies ((
                    #[trigger] self.links@[i]) matches Some(j) ==> j < i && bucket_of(
                        self.keys@[j as int],
                    ) == bucket_of(self.keys@[i])) by {
                        if i < n {
                            assert(self.links@[i] == before.links@[i]);
                        }
                    }
                    assert forall|b: u64| #[trigger] self.heads@.contains_key(b) implies self.heads@[b]
                        < self.keys@.len() && bucket_of(self.keys@[self.heads@[b] as int]) == b by {
                        if b != h {
                            assert(before.heads@.contains_key(b));
                        }
                    }
                    assert forall|i: int| 0 <= i < self.keys@.len() implies self.heads@.contains_key(
                        bucket_of(#[trigger] self.keys@[i]),
                    ) && reaches(self.links@, self.heads@[bucket_of(self.keys@[i])] as int, i) by {
                        if i < n {
                            assert(self.keys@[i] == before.keys@[i]);
                            let b = bucket_of(before.keys@[i]);
                            assert(before.heads@.contains_key(b));
                            let head = before.heads@[b];
                            lemma_reaches_push(before.links@, link, head as int, i);
                            if b == h {
                                assert(self.links@[n as int] == Some(head));
                                assert(reaches(self.links@, n as int, i));
                            }
                        }
                    }
                }
            },
        }
    }

    /// The value bound to `key`, to be changed in place, if there is one.
    /// Whatever is written through the reference is what the key is bound to
    /// afterwards; no other binding changes.
    pub fn get_mut(&mut self, key: &Location) -> (value: Option<&mut V>)
        requires
            old(self).wf(),
        ensures
            final(self).wf(),
            final(self).keys() == old(self).keys(),
            value is Some <==> old(self)@.contains_key(*key),
            match value {
                Some(v) => {
                    &&& *v == old(self)@[*key]
                    &&& final(self).values() == old(self).values().update(
                        old(self).keys().index_of(*key),
                        *final(v),
                    )
                    &&& final(self)@ == old(self)@.insert(*key, *final(v))
                },
                None => final(self).values() == old(self).values(),
            },
    {
        match self.position(key) {
            Some(i) => {
                proof {
                    lemma_pairing_update_any(self.keys@, self.values@, i as int);
                }
                Some(&mut self.values[i])
            },
            None => None,
        }
    }

    /// The keys, in order of first insertion.
    pub fn locations(&self) -> (keys: Vec<Location>)
        requires
            self.wf(),
        ensures
            keys@ == self.keys(),
    {
        let mut keys: Vec<Location> = Vec::new();
        let mut i: usize = 0;
        while i < self.keys.len()
            invariant
                0 <= i <= self.keys@.len(),
                keys@ == self.keys@.take(i as int),
            decreases self.keys@.len() - i,
        {
            keys.push(self.keys[i]);
            proof {
                assert(self.keys@.take(i + 1) =~= self.keys@.take(i as int).push(self.keys@[i as int]));
            }
            i += 1;
        }
        proof {
            assert(self.keys@.take(self.keys@.len() as int) =~= self.keys@);
        }
        keys
    }

    /// The values, each at the position of its key.
    pub fn entries(&self) -> (values: Vec<&V>)
        requires
            self.wf(),
        ensures
            values@.len() == self.values().len(),
            forall|i: int| 0 <= i < values@.len() ==> *(#[trigger] values@[i]) == self.values()[i],
    {
        let mut values: Vec<&V> = Vec::new();
        let mut i: usize = 0;
        while i < self.values.len()
            invariant
                0 <= i <= self.values@.len(),
                values@.len() == i,
                forall|j: int| 0 <= j < i ==> *(#[trigger] values@[j]) == self.values@[j],
            decreases self.values@.len() - i,
        {
            values.push(&self.values[i]);
            i += 1;
        }
        values
    }
}

} // verus!
