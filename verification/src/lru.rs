//! Least Recently Used (LRU) cache.
use vstd::prelude::*;
use vstd::std_specs::cmp::PartialEqSpec;

verus! {

/// Whether `==` on keys means that they are the same, and cloning gives the same
/// key.
pub open spec fn keys_compare<K: PartialEq + Clone>() -> bool {
    &&& K::obeys_eq_spec()
    &&& forall|a: K, b: K| #[trigger] a.eq_spec(&b) <==> a == b
    &&& forall|a: K, b: K| #[trigger] cloned(a, b) ==> a == b
}

/// A cached value with its key, and how often it is referenced.
pub struct LruSlot<K, V> {
    pub key: Option<K>,
    pub value: V,
    pub refs: usize,
}

/// The key-value map of a Least Recently Used (LRU) cache: the most recently used
/// value comes first.
pub struct LruMap<K, V> {
    pub list: Vec<LruSlot<K, V>>,
}

/// The first slot from the `k`-th on that has a key.
pub open spec fn find_key<K, V>(list: Seq<LruSlot<K, V>>, key: K, k: nat) -> Option<int>
    decreases list.len() - k,
{
    if k >= list.len() {
        None
    } else if list[k as int].key == Some(key) {
        Some(k as int)
    } else {
        find_key(list, key, k + 1)
    }
}

/// The last of the first `n` slots that is not referenced.
pub open spec fn last_unused<K, V>(list: Seq<LruSlot<K, V>>, n: nat) -> Option<int>
    decreases n,
{
    if n == 0 {
        None
    } else if list[n - 1].refs == 0 {
        Some(n - 1)
    } else {
        last_unused(list, (n - 1) as nat)
    }
}

/// The slots after one of them has been referenced once more.
pub open spec fn referenced<K, V>(list: Seq<LruSlot<K, V>>, i: int, key: K) -> Seq<LruSlot<K, V>> {
    list.update(
        i,
        LruSlot { key: Some(key), value: list[i].value, refs: (list[i].refs + 1) as usize },
    )
}

/// What comes of asking for a key: the slot that has it; or else the least
/// recently used slot that is not referenced, which gets the key.
pub open spec fn slot_for<K, V>(list: Seq<LruSlot<K, V>>, key: K) -> Option<int> {
    match find_key(list, key, 0) {
        Some(i) => Some(i),
        None => last_unused(list, list.len()),
    }
}

/// The slots after that.
pub open spec fn got<K, V>(list: Seq<LruSlot<K, V>>, key: K) -> Seq<LruSlot<K, V>> {
    match slot_for(list, key) {
        Some(i) => referenced(list, i, key),
        None => list,
    }
}

/// The slots after the one with a key has been moved to the front.
pub open spec fn promoted<K, V>(list: Seq<LruSlot<K, V>>, key: K) -> Seq<LruSlot<K, V>> {
    match find_key(list, key, 0) {
        Some(i) => seq![list[i]] + list.remove(i),
        None => list,
    }
}

/// The slots after a reference to the one with a key has been given back.
pub open spec fn released<K, V>(list: Seq<LruSlot<K, V>>, key: K) -> Seq<LruSlot<K, V>> {
    let moved = promoted(list, key);
    moved.update(0, LruSlot { refs: (moved[0].refs - 1) as usize, ..moved[0] })
}

/// No two slots have the same key, and what is referenced has one.
pub open spec fn slots_wf<K, V>(list: Seq<LruSlot<K, V>>) -> bool {
    &&& forall|i: int, j: int|
        0 <= i < list.len() && 0 <= j < list.len() && i != j && (#[trigger] list[i]).key is Some
            ==> list[i].key != (#[trigger] list[j]).key
    &&& forall|i: int| 0 <= i < list.len() && (#[trigger] list[i]).refs > 0 ==> list[i].key is Some
}

/// A slot that is found has the key; where none is found, none has it.
pub proof fn lemma_find_key<K, V>(list: Seq<LruSlot<K, V>>, key: K, k: nat)
    ensures
        match find_key(list, key, k) {
            Some(i) => k <= i < list.len() && list[i].key == Some(key),
            None => forall|i: int| k <= i < list.len() ==> (#[trigger] list[i]).key != Some(key),
        },
    decreases list.len() - k,
{
    if k < list.len() && list[k as int].key != Some(key) {
        lemma_find_key(list, key, k + 1);
    }
}

/// In order, a key that some slot has is found there.
pub proof fn lemma_found<K, V>(list: Seq<LruSlot<K, V>>, key: K, i: int)
    requires
        slots_wf(list),
        0 <= i < list.len(),
        list[i].key == Some(key),
    ensures
        find_key(list, key, 0) == Some(i),
{
    lemma_find_key(list, key, 0);
    let j = find_key(list, key, 0);
    if j is Some && j->0 != i {
        assert(list[j->0].key != list[i].key);
    }
}

/// The last slot that is not referenced is not referenced; those behind it are.
pub proof fn lemma_last_unused<K, V>(list: Seq<LruSlot<K, V>>, n: nat)
    requires
        n <= list.len(),
    ensures
        match last_unused(list, n) {
            Some(i) => {
                &&& 0 <= i < n
                &&& list[i].refs == 0
                &&& forall|j: int| i < j < n ==> (#[trigger] list[j]).refs > 0
            },
            None => forall|j: int| 0 <= j < n ==> (#[trigger] list[j]).refs > 0,
        },
    decreases n,
{
    if n > 0 && list[n - 1].refs != 0 {
        lemma_last_unused(list, (n - 1) as nat);
    }
}

/// Asking for a key keeps the slots in order.
pub proof fn lemma_got_wf<K, V>(list: Seq<LruSlot<K, V>>, key: K)
    requires
        slots_wf(list),
    ensures
        slots_wf(got(list, key)),
        got(list, key).len() == list.len(),
        slot_for(list, key) matches Some(i) ==> 0 <= i < list.len(),
{
    lemma_find_key(list, key, 0);
    lemma_last_unused(list, list.len());
}

/// Giving a reference back keeps the slots in order.
pub proof fn lemma_released_wf<K, V>(list: Seq<LruSlot<K, V>>, key: K, i: int)
    requires
        slots_wf(list),
        0 <= i < list.len(),
        list[i].key == Some(key),
        list[i].refs > 0,
    ensures
        slots_wf(released(list, key)),
        released(list, key).len() == list.len(),
        find_key(list, key, 0) == Some(i),
{
    lemma_found(list, key, i);
    let after = released(list, key);
    let moved = promoted(list, key);
    assert(moved =~= seq![list[i]] + list.remove(i));
    let from = |k: int|
        if k == 0 {
            i
        } else if k <= i {
            k - 1
        } else {
            k
        };
    assert forall|k: int| 0 <= k < after.len() implies (#[trigger] after[k]).key == list[from(k)].key
        && (k > 0 ==> after[k].refs == list[from(k)].refs) by {}
    assert forall|a: int, b: int|
        0 <= a < after.len() && 0 <= b < after.len() && a != b && (#[trigger] after[a]).key
            is Some implies after[a].key != (#[trigger] after[b]).key by {
        assert(from(a) != from(b));
        assert(list[from(a)].key != list[from(b)].key);
    }
    assert forall|k: int| 0 <= k < after.len() && (#[trigger] after[k]).refs > 0 implies after[k].key
        is Some by {
        assert(list[from(k)].refs > 0 ==> list[from(k)].key is Some);
    }
}

impl<K, V> Default for LruMap<K, V> {
    /// A map of no size, which can cache nothing.
    fn default() -> (r: Self)
        ensures
            r.wf(),
            r.list@.len() == 0,
    {
        LruMap { list: Vec::new() }
    }
}

impl<K, V> LruMap<K, V> {
    /// The slots are in order.
    pub open spec fn wf(self) -> bool {
        slots_wf(self.list@)
    }

    /// Creates a new `LruMap` with the given size.
    pub fn new(size: usize) -> (r: Self) where V: Default
        requires
            size > 0,
            call_requires(V::default, ()),
        ensures
            r.wf(),
            r.list@.len() == size,
            forall|i: int|
                0 <= i < size ==> {
                    &&& (#[trigger] r.list@[i]).key is None
                    &&& r.list@[i].refs == 0
                    &&& call_ensures(V::default, (), r.list@[i].value)
                },
    {
        let mut list: Vec<LruSlot<K, V>> = Vec::new();
        while list.len() < size
            invariant
                list@.len() <= size,
                call_requires(V::default, ()),
                forall|i: int|
                    0 <= i < list@.len() ==> {
                        &&& (#[trigger] list@[i]).key is None
                        &&& list@[i].refs == 0
                        &&& call_ensures(V::default, (), list@[i].value)
                    },
            decreases size - list@.len(),
        {
            let value: V = V::default();
            list.push(LruSlot { key: None, value, refs: 0 });
        }
        LruMap { list }
    }
}

impl<K: PartialEq + Clone, V> LruMap<K, V> {
    fn find(&self, key: &K) -> (r: Option<usize>)
        requires
            keys_compare::<K>(),
        ensures
            match find_key(self.list@, *key, 0) {
                Some(i) => r matches Some(k) && k == i && 0 <= i < self.list@.len(),
                None => r is None,
            },
    {
        let mut k: usize = 0;
        while k < self.list.len()
            invariant
                keys_compare::<K>(),
                k <= self.list@.len(),
                find_key(self.list@, *key, 0) == find_key(self.list@, *key, k as nat),
            decreases self.list@.len() - k,
        {
            match &self.list[k].key {
                Some(found) => {
                    if *found == *key {
                        assert(found.eq_spec(key));
                        return Some(k);
                    }
                    assert(!found.eq_spec(key));
                },
                None => {},
            }
            k = k + 1;
        }
        None
    }

    /// References the value with a key. If it is not cached, recycles the least
    /// recently used value that is not referenced. If all are, returns `None`.
    pub fn get(&mut self, key: K) -> (r: Option<LruValue<K>>)
        requires
            old(self).wf(),
            keys_compare::<K>(),
            forall|i: int|
                0 <= i < old(self).list@.len() && (#[trigger] old(self).list@[i]).key == Some(key)
                    ==> old(self).list@[i].refs < usize::MAX,
        ensures
            final(self).wf(),
            final(self).list@ == got(old(self).list@, key),
            r is Some <==> slot_for(old(self).list@, key) is Some,
            r matches Some(value) ==> value.key == key,
    {
        let ghost before = self.list@;
        proof {
            lemma_got_wf(before, key);
        }
        match self.find(&key) {
            Some(i) => {
                proof {
                    lemma_find_key(before, key, 0);
                }
                let refs: usize = self.list[i].refs + 1;
                self.list[i].refs = refs;
                assert(self.list@ =~= got(before, key));
                return Some(LruValue { key });
            },
            None => {},
        }
        let mut n: usize = self.list.len();
        while n > 0
            invariant
                n <= self.list@.len(),
                self.list@ == before,
                before == old(self).list@,
                slots_wf(before),
                slots_wf(got(before, key)),
                got(before, key).len() == before.len(),
                keys_compare::<K>(),
                find_key(before, key, 0) is None,
                last_unused(before, before.len()) == last_unused(before, n as nat),
            decreases n,
        {
            if self.list[n - 1].refs == 0 {
                let copy: K = key.clone();
                assert(cloned(key, copy));
                self.list[n - 1].key = Some(copy);
                self.list[n - 1].refs = 1;
                assert(self.list@ =~= got(before, key));
                return Some(LruValue { key });
            }
            n = n - 1;
        }
        None
    }

    /// Moves the value with a key to the front.
    pub fn promote(&mut self, key: &K)
        requires
            old(self).wf(),
            keys_compare::<K>(),
        ensures
            final(self).list@ == promoted(old(self).list@, *key),
            final(self).wf(),
    {
        let ghost before = self.list@;
        match self.find(key) {
            Some(i) => {
                let slot: LruSlot<K, V> = self.list.remove(i);
                self.list.insert(0, slot);
                proof {
                    lemma_find_key(before, *key, 0);
                    let after = self.list@;
                    assert(after =~= promoted(before, *key));
                    let from = |k: int|
                        if k == 0 {
                            i as int
                        } else if k <= i {
                            k - 1
                        } else {
                            k
                        };
                    assert forall|k: int| 0 <= k < after.len() implies #[trigger] after[k]
                        == before[from(k)] by {}
                    assert forall|a: int, b: int|
                        0 <= a < after.len() && 0 <= b < after.len() && a != b && (
                        #[trigger] after[a]).key is Some implies after[a].key != (
                    #[trigger] after[b]).key by {
                        assert(from(a) != from(b));
                        assert(before[from(a)].key != before[from(b)].key);
                    }
                }
            },
            None => {},
        }
    }

    /// Gives a reference back; the value becomes the most recently used one.
    pub fn release(&mut self, value: LruValue<K>)
        requires
            old(self).wf(),
            keys_compare::<K>(),
            exists|i: int|
                0 <= i < old(self).list@.len() && (#[trigger] old(self).list@[i]).key == Some(
                    value.key,
                ) && old(self).list@[i].refs > 0,
        ensures
            final(self).wf(),
            final(self).list@ == released(old(self).list@, value.key),
    {
        let ghost before = self.list@;
        proof {
            let i = choose|i: int|
                0 <= i < before.len() && (#[trigger] before[i]).key == Some(value.key)
                    && before[i].refs > 0;
            lemma_released_wf(before, value.key, i);
            assert(promoted(before, value.key)[0] == before[i]);
        }
        self.promote(&value.key);
        let refs: usize = self.list[0].refs - 1;
        self.list[0].refs = refs;
        assert(self.list@ =~= released(before, value.key));
    }
}

/// A reference to the cached value with a key. It is given back with
/// [`LruMap::release`].
pub struct LruValue<K> {
    pub key: K,
}

impl<K> LruValue<K> {
    /// Returns the cache key.
    pub fn key(&self) -> (r: &K)
        ensures
            *r == self.key,
    {
        &self.key
    }
}

impl<K: PartialEq + Clone> LruValue<K> {
    /// Returns a reference to the cached value.
    pub fn value<'a, V>(&self, map: &'a LruMap<K, V>) -> (r: &'a V)
        requires
            map.wf(),
            keys_compare::<K>(),
            exists|i: int|
                0 <= i < map.list@.len() && (#[trigger] map.list@[i]).key == Some(self.key),
        ensures
            exists|i: int|
                0 <= i < map.list@.len() && (#[trigger] map.list@[i]).key == Some(self.key) && *r
                    == map.list@[i].value,
    {
        let ghost i = choose|i: int|
            0 <= i < map.list@.len() && (#[trigger] map.list@[i]).key == Some(self.key);
        proof {
            lemma_found(map.list@, self.key, i);
        }
        match map.find(&self.key) {
            Some(k) => &map.list[k].value,
            None => &map.list[0].value,
        }
    }

    /// Makes another reference to the same value.
    pub fn clone_ref<V>(&self, map: &mut LruMap<K, V>) -> (r: LruValue<K>)
        requires
            old(map).wf(),
            keys_compare::<K>(),
            exists|i: int|
                0 <= i < old(map).list@.len() && (#[trigger] old(map).list@[i]).key == Some(
                    self.key,
                ),
            forall|i: int|
                0 <= i < old(map).list@.len() && (#[trigger] old(map).list@[i]).key == Some(self.key)
                    ==> old(map).list@[i].refs < usize::MAX,
        ensures
            final(map).wf(),
            final(map).list@ == got(old(map).list@, self.key),
            r.key == self.key,
    {
        let ghost i = choose|i: int|
            0 <= i < old(map).list@.len() && (#[trigger] old(map).list@[i]).key == Some(self.key);
        proof {
            lemma_found(old(map).list@, self.key, i);
        }
        let copy: K = self.key.clone();
        assert(cloned(self.key, copy));
        match map.get(copy) {
            Some(value) => value,
            None => vstd::pervasive::unreached(),
        }
    }
}

/// Least Recently Used (LRU) cache.
pub struct Lru<K, V> {
    pub map: LruMap<K, V>,
}

impl<K: PartialEq + Clone, V> Lru<K, V> {
    /// Creates a new LRU cache with the given size.
    #[must_use]
    pub fn new(size: usize) -> (r: Self) where V: Default
        requires
            size > 0,
            call_requires(V::default, ()),
        ensures
            r.map.wf(),
            r.map.list@.len() == size,
            forall|i: int|
                0 <= i < size ==> {
                    &&& (#[trigger] r.map.list@[i]).key is None
                    &&& r.map.list@[i].refs == 0
                    &&& call_ensures(V::default, (), r.map.list@[i].value)
                },
    {
        Lru { map: LruMap::new(size) }
    }

    /// Returns a reference to the cached value associated with the key.
    ///
    /// If the value is cached, returns a reference to it. If the value is not
    /// cached, recycles the least recently used (LRU) unreferenced cache and
    /// returns a reference to it. If all values are referenced, returns `None`.
    pub fn get(&mut self, key: K) -> (r: Option<LruValue<K>>)
        requires
            old(self).map.wf(),
            keys_compare::<K>(),
            forall|i: int|
                0 <= i < old(self).map.list@.len() && (#[trigger] old(self).map.list@[i]).key
                    == Some(key) ==> old(self).map.list@[i].refs < usize::MAX,
        ensures
            final(self).map.wf(),
            final(self).map.list@ == got(old(self).map.list@, key),
            r is Some <==> slot_for(old(self).map.list@, key) is Some,
            r matches Some(value) ==> value.key == key,
    {
        self.map.get(key)
    }
}

/// A value that is referenced is never recycled: whatever key is asked for, it
/// keeps its place, its key and its references.
pub proof fn law_referenced_stays<K, V>(list: Seq<LruSlot<K, V>>, key: K, i: int)
    requires
        slots_wf(list),
        0 <= i < list.len(),
        list[i].refs > 0,
        list[i].key != Some(key),
    ensures
        got(list, key)[i] == list[i],
{
    lemma_find_key(list, key, 0);
    lemma_last_unused(list, list.len());
}

/// A key can be had if and only if it is cached or some value is not referenced.
pub proof fn law_get_succeeds<K, V>(list: Seq<LruSlot<K, V>>, key: K)
    requires
        slots_wf(list),
    ensures
        slot_for(list, key) is Some <==> exists|i: int|
            0 <= i < list.len() && ((#[trigger] list[i]).key == Some(key) || list[i].refs == 0),
{
    lemma_find_key(list, key, 0);
    lemma_last_unused(list, list.len());
    if slot_for(list, key) is Some {
        let i = slot_for(list, key)->0;
        assert(list[i].key == Some(key) || list[i].refs == 0);
    }
}

/// What asking for a key does. If it is cached, its value is referenced once more, and
/// nothing else changes. If it is not, the least recently used value that is not
/// referenced gets the key, and nothing else changes, not even the value; no value
/// moves. If there is none, nothing changes at all.
pub proof fn law_get<K, V>(list: Seq<LruSlot<K, V>>, key: K)
    requires
        slots_wf(list),
    ensures
        got(list, key).len() == list.len(),
        forall|i: int|
            0 <= i < list.len() && (#[trigger] list[i]).key == Some(key) ==> slot_for(list, key)
                == Some(i),
        (forall|i: int| 0 <= i < list.len() ==> (#[trigger] list[i]).key != Some(key)) ==> {
            match slot_for(list, key) {
                Some(i) => {
                    &&& 0 <= i < list.len()
                    &&& list[i].refs == 0
                    &&& forall|j: int| i < j < list.len() ==> (#[trigger] list[j]).refs > 0
                },
                None => forall|j: int| 0 <= j < list.len() ==> (#[trigger] list[j]).refs > 0,
            }
        },
        match slot_for(list, key) {
            Some(i) => {
                &&& got(list, key)[i].key == Some(key)
                &&& got(list, key)[i].value == list[i].value
                &&& list[i].refs < usize::MAX ==> got(list, key)[i].refs == list[i].refs + 1
                &&& forall|j: int|
                    0 <= j < list.len() && j != i ==> #[trigger] got(list, key)[j] == list[j]
            },
            None => got(list, key) == list,
        },
{
    lemma_find_key(list, key, 0);
    lemma_last_unused(list, list.len());
    assert forall|i: int| 0 <= i < list.len() && (#[trigger] list[i]).key == Some(key) implies slot_for(
        list,
        key,
    ) == Some(i) by {
        lemma_found(list, key, i);
    }
}

/// The slots after keys have been asked for, one after the other.
pub open spec fn got_all<K, V>(list: Seq<LruSlot<K, V>>, keys: Seq<K>) -> Seq<LruSlot<K, V>>
    decreases keys.len(),
{
    if keys.len() == 0 {
        list
    } else {
        got(got_all(list, keys.drop_last()), keys.last())
    }
}

/// Where the slots of a new map stand after keys have been asked for: the last slots
/// have them, each once referenced.
proof fn lemma_got_all<K, V>(list: Seq<LruSlot<K, V>>, keys: Seq<K>)
    requires
        forall|i: int|
            0 <= i < list.len() ==> (#[trigger] list[i]).key is None && list[i].refs == 0,
        keys.no_duplicates(),
        keys.len() <= list.len(),
    ensures
        got_all(list, keys).len() == list.len(),
        forall|i: int|
            0 <= i < list.len() ==> #[trigger] got_all(list, keys)[i] == (if i >= list.len()
                - keys.len() {
                LruSlot { key: Some(keys[list.len() - 1 - i]), value: list[i].value, refs: 1 }
            } else {
                list[i]
            }),
        keys.len() > 0 ==> slot_for(got_all(list, keys.drop_last()), keys.last()) == Some(
            list.len() - keys.len(),
        ),
    decreases keys.len(),
{
    if keys.len() > 0 {
        let front = keys.drop_last();
        let key = keys.last();
        let n = list.len() - keys.len();
        lemma_got_all(list, front);
        let before = got_all(list, front);
        lemma_find_key(before, key, 0);
        if find_key(before, key, 0) is Some {
            let i = find_key(before, key, 0)->0;
            assert(before[i].key == Some(front[list.len() - 1 - i]));
            assert(keys[list.len() - 1 - i] == keys[keys.len() - 1]);
        }
        lemma_last_unused(before, before.len());
        assert(before[n].refs == 0);
        assert forall|j: int| n < j < before.len() implies before[j].refs > 0 by {
            assert(before[j].refs == 1);
        }
        assert(slot_for(before, key) == Some(n));
        assert(got_all(list, keys) == referenced(before, n, key));
    }
}

/// In a new map, as many different keys can be had together as it has slots, each with
/// the value that its slot was made with; another key then cannot.
pub proof fn law_new_holds<K, V>(list: Seq<LruSlot<K, V>>, keys: Seq<K>, other: K)
    requires
        forall|i: int|
            0 <= i < list.len() ==> (#[trigger] list[i]).key is None && list[i].refs == 0,
        keys.no_duplicates(),
        keys.len() == list.len(),
        !keys.contains(other),
    ensures
        forall|n: int|
            0 <= n < keys.len() ==> {
                let before = #[trigger] got_all(list, keys.take(n));
                let i = list.len() - 1 - n;
                &&& slot_for(before, keys[n]) == Some(i)
                &&& before[i].value == list[i].value
                &&& got_all(list, keys)[i].key == Some(keys[n])
                &&& got_all(list, keys)[i].value == list[i].value
                &&& got_all(list, keys)[i].refs == 1
            },
        slot_for(got_all(list, keys), other) is None,
{
    assert forall|n: int| 0 <= n < keys.len() implies {
        let before = #[trigger] got_all(list, keys.take(n));
        let i = list.len() - 1 - n;
        &&& slot_for(before, keys[n]) == Some(i)
        &&& before[i].value == list[i].value
        &&& got_all(list, keys)[i].key == Some(keys[n])
        &&& got_all(list, keys)[i].value == list[i].value
        &&& got_all(list, keys)[i].refs == 1
    } by {
        let some = keys.take(n + 1);
        assert(some.drop_last() =~= keys.take(n));
        assert(some.last() == keys[n]);
        lemma_got_all(list, some);
        lemma_got_all(list, keys.take(n));
        lemma_got_all(list, keys);
    }
    lemma_got_all(list, keys);
    let full = got_all(list, keys);
    lemma_find_key(full, other, 0);
    lemma_last_unused(full, full.len());
    if find_key(full, other, 0) is Some {
        let i = find_key(full, other, 0)->0;
        assert(full[i].key == Some(keys[list.len() - 1 - i]));
        assert(keys.contains(keys[list.len() - 1 - i]));
    }
    if last_unused(full, full.len()) is Some {
        let i = last_unused(full, full.len())->0;
        assert(full[i].refs == 1);
    }
}

/// A value that has been asked for and given back is the most recently used one,
/// and as often referenced as before.
pub proof fn law_released_first<K, V>(list: Seq<LruSlot<K, V>>, key: K)
    requires
        slots_wf(list),
        slot_for(list, key) is Some,
        list[slot_for(list, key)->0].refs < usize::MAX,
    ensures
        ({
            let i = slot_for(list, key)->0;
            let after = released(got(list, key), key);
            &&& after.len() == list.len()
            &&& after[0].key == Some(key)
            &&& after[0].value == list[i].value
            &&& after[0].refs == list[i].refs
        }),
{
    lemma_got_wf(list, key);
    let i = slot_for(list, key)->0;
    let mid = got(list, key);
    lemma_find_key(list, key, 0);
    assert(mid[i].key == Some(key));
    lemma_released_wf(mid, key, i);
}

/// Asking for a key again while its value is referenced gives the same value.
pub proof fn law_get_again<K, V>(list: Seq<LruSlot<K, V>>, key: K)
    requires
        slots_wf(list),
        slot_for(list, key) is Some,
    ensures
        slot_for(got(list, key), key) == slot_for(list, key),
        got(list, key)[slot_for(list, key)->0].value == list[slot_for(list, key)->0].value,
{
    lemma_got_wf(list, key);
    let i = slot_for(list, key)->0;
    lemma_find_key(list, key, 0);
    lemma_found(got(list, key), key, i);
}

/// Giving a reference back moves the value to the front, with one reference less, and
/// keeps all others in their order: those that stood before it move back by one place,
/// those behind it stay where they are.
pub proof fn law_release_keeps_order<K, V>(list: Seq<LruSlot<K, V>>, key: K, i: int)
    requires
        slots_wf(list),
        0 <= i < list.len(),
        list[i].key == Some(key),
        list[i].refs > 0,
    ensures
        released(list, key).len() == list.len(),
        released(list, key)[0].key == Some(key),
        released(list, key)[0].value == list[i].value,
        released(list, key)[0].refs == list[i].refs - 1,
        forall|j: int| 0 <= j < i ==> released(list, key)[j + 1] == #[trigger] list[j],
        forall|j: int| i < j < list.len() ==> released(list, key)[j] == #[trigger] list[j],
{
    lemma_found(list, key, i);
}

/// Moving the value with a key to the front changes no value and keeps all others in
/// their order. Where no value has the key, nothing moves.
pub proof fn law_promote_keeps_order<K, V>(list: Seq<LruSlot<K, V>>, key: K)
    requires
        slots_wf(list),
    ensures
        promoted(list, key).len() == list.len(),
        forall|i: int|
            0 <= i < list.len() && (#[trigger] list[i]).key == Some(key) ==> {
                &&& promoted(list, key)[0] == list[i]
                &&& forall|j: int| 0 <= j < i ==> promoted(list, key)[j + 1] == #[trigger] list[j]
                &&& forall|j: int|
                    i < j < list.len() ==> promoted(list, key)[j] == #[trigger] list[j]
            },
        (forall|i: int| 0 <= i < list.len() ==> (#[trigger] list[i]).key != Some(key))
            ==> promoted(list, key) == list,
{
    lemma_find_key(list, key, 0);
    assert forall|i: int| 0 <= i < list.len() && (#[trigger] list[i]).key == Some(key) implies {
        &&& promoted(list, key)[0] == list[i]
        &&& forall|j: int| 0 <= j < i ==> promoted(list, key)[j + 1] == #[trigger] list[j]
        &&& forall|j: int| i < j < list.len() ==> promoted(list, key)[j] == #[trigger] list[j]
    } by {
        lemma_found(list, key, i);
    }
}

/// The slots after keys have been asked for and given back, one after the other.
pub open spec fn used_all<K, V>(list: Seq<LruSlot<K, V>>, keys: Seq<K>) -> Seq<LruSlot<K, V>>
    decreases keys.len(),
{
    if keys.len() == 0 {
        list
    } else {
        released(got(used_all(list, keys.drop_last()), keys.last()), keys.last())
    }
}

/// What one use of a key does to a map in which nothing is referenced.
proof fn lemma_used<K, V>(list: Seq<LruSlot<K, V>>, key: K)
    requires
        slots_wf(list),
        list.len() > 0,
        forall|j: int| 0 <= j < list.len() ==> (#[trigger] list[j]).refs == 0,
    ensures
        ({
            let after = released(got(list, key), key);
            let i = slot_for(list, key)->0;
            &&& slots_wf(after)
            &&& slot_for(list, key) is Some
            &&& 0 <= i < list.len()
            &&& list[i].key == Some(key) || i == list.len() - 1
            &&& after.len() == list.len()
            &&& after[0].key == Some(key)
            &&& after[0].value == list[i].value
            &&& forall|j: int| 0 <= j < list.len() ==> (#[trigger] after[j]).refs == 0
            &&& forall|j: int| 0 <= j < i ==> after[j + 1] == #[trigger] list[j]
            &&& forall|j: int| i < j < list.len() ==> after[j] == #[trigger] list[j]
        }),
{
    lemma_find_key(list, key, 0);
    lemma_last_unused(list, list.len());
    lemma_got_wf(list, key);
    assert(list[list.len() - 1].refs == 0);
    let i = slot_for(list, key)->0;
    let mid = got(list, key);
    let after = released(mid, key);
    assert(mid[i].refs == 1);
    lemma_released_wf(mid, key, i);
    law_release_keeps_order(mid, key, i);
    assert forall|j: int| 0 <= j < i implies after[j + 1] == #[trigger] list[j] by {
        assert(mid[j] == list[j]);
    }
    assert forall|j: int| i < j < list.len() implies after[j] == #[trigger] list[j] by {
        assert(mid[j] == list[j]);
    }
    assert forall|j: int| 0 <= j < list.len() implies (#[trigger] after[j]).refs == 0 by {
        if 0 < j <= i {
            assert(after[(j - 1) + 1] == list[j - 1]);
        } else if j > i {
            assert(after[j] == list[j]);
        }
    }
}

/// A map with `n` slots of which none is referenced holds the `n` different keys that
/// were used last, the last one first: none of them is recycled for another of them.
pub proof fn law_holds_last_used<K, V>(list: Seq<LruSlot<K, V>>, keys: Seq<K>)
    requires
        slots_wf(list),
        forall|j: int| 0 <= j < list.len() ==> (#[trigger] list[j]).refs == 0,
        keys.no_duplicates(),
        keys.len() <= list.len(),
    ensures
        slots_wf(used_all(list, keys)),
        used_all(list, keys).len() == list.len(),
        forall|j: int| 0 <= j < list.len() ==> (#[trigger] used_all(list, keys)[j]).refs == 0,
        forall|j: int|
            0 <= j < keys.len() ==> (#[trigger] used_all(list, keys)[j]).key == Some(
                keys[keys.len() - 1 - j],
            ),
    decreases keys.len(),
{
    if keys.len() > 0 {
        let front = keys.drop_last();
        let key = keys.last();
        law_holds_last_used(list, front);
        let before = used_all(list, front);
        let after = used_all(list, keys);
        lemma_used(before, key);
        let i = slot_for(before, key)->0;
        assert(i >= front.len()) by {
            if i < front.len() {
                assert(before[i].key == Some(front[front.len() - 1 - i]));
                assert(keys[front.len() - 1 - i] != keys[keys.len() - 1]);
            }
        }
        assert forall|j: int| 0 <= j < keys.len() implies (#[trigger] after[j]).key == Some(
            keys[keys.len() - 1 - j],
        ) by {
            if j > 0 {
                assert(after[(j - 1) + 1] == before[j - 1]);
                assert(before[j - 1].key == Some(front[front.len() - 1 - (j - 1)]));
            }
        }
    }
}

/// Of two values that are not referenced, the one that was given back earlier, and so
/// stands further back, is recycled first: the other one stays, whatever key is asked
/// for.
pub proof fn law_older_goes_first<K, V>(
    list: Seq<LruSlot<K, V>>,
    earlier: int,
    later: int,
    key: K,
)
    requires
        slots_wf(list),
        0 <= later < earlier < list.len(),
        list[later].refs == 0,
        list[earlier].refs == 0,
        forall|j: int| 0 <= j < list.len() ==> (#[trigger] list[j]).key != Some(key),
    ensures
        got(list, key)[later] == list[later],
        exists|j: int|
            earlier <= j < list.len() && (#[trigger] list[j]).refs == 0 && got(list, key)[j].key
                == Some(key),
{
    lemma_find_key(list, key, 0);
    lemma_last_unused(list, list.len());
    let i = slot_for(list, key)->0;
    assert(list[i].refs == 0);
}

/// A key whose value is not referenced any more finds the same value again, as long as no
/// other key has been asked for that was not cached.
pub proof fn law_found_again<K, V>(list: Seq<LruSlot<K, V>>, key: K, other: K, i: int)
    requires
        slots_wf(list),
        0 <= i < list.len(),
        list[i].key == Some(key),
        list[i].refs > 0,
        key != other,
        exists|j: int| 0 <= j < list.len() && (#[trigger] list[j]).key == Some(other),
    ensures
        ({
            let back = released(list, key);
            let then = got(back, other);
            &&& slot_for(then, key) == Some(0int)
            &&& then[0].value == list[i].value
        }),
{
    let j = choose|j: int| 0 <= j < list.len() && (#[trigger] list[j]).key == Some(other);
    let back = released(list, key);
    lemma_released_wf(list, key, i);
    law_release_keeps_order(list, key, i);
    let k = if j < i {
        j + 1
    } else {
        j
    };
    assert(back[k] == list[j]);
    lemma_found(back, other, k);
    lemma_got_wf(back, other);
    let then = got(back, other);
    assert(then[0] == back[0]);
    lemma_found(then, key, 0);
}

} // verus!
