use vstd::prelude::*;

use crate::hashmap::{
    bucket_index, deep, find_in_bucket, lemma_at_slot, lemma_dom_card, lemma_push_slot,
    lemma_remove_slot, tbl_dom, tbl_get, tbl_has, tbl_map, tbl_witness, HashMap,
};
use crate::key::MapKey;

verus! {

/// A view into one key's slot of a table, produced by a single lookup: either
/// the key was found, or it is absent and the insertion point (the bucket its
/// hash selects, in a table already grown for one more item) is retained.
pub enum Entry<K, V> {
    Occupied(OccupiedEntry<K, V>),
    Vacant(VacantEntry<K, V>),
}

/// Exclusive access to an existing pair, by its bucket and slot coordinates.
pub struct OccupiedEntry<K, V> {
    map: HashMap<K, V>,
    bucket: usize,
    slot: usize,
}

/// The key that was not found, the table, and the bucket the key belongs in.
pub struct VacantEntry<K, V> {
    key: K,
    map: HashMap<K, V>,
    bucket: usize,
}

impl<K: MapKey, V> OccupiedEntry<K, V> {
    pub closed spec fn wf(self) -> bool {
        &&& self.map.wf()
        &&& self.bucket < deep(self.map.buckets@).len()
        &&& self.slot < deep(self.map.buckets@)[self.bucket as int].len()
    }

    pub closed spec fn map_view(self) -> Map<K::V, V> {
        self.map@
    }

    pub closed spec fn key_view(self) -> K::V {
        deep(self.map.buckets@)[self.bucket as int][self.slot as int].0@
    }

    pub closed spec fn current_value(self) -> V {
        deep(self.map.buckets@)[self.bucket as int][self.slot as int].1
    }
}

impl<K: MapKey, V> VacantEntry<K, V> {
    pub closed spec fn wf(self) -> bool {
        &&& self.map.wf()
        &&& !tbl_has(deep(self.map.buckets@), self.key@)
        &&& deep(self.map.buckets@).len() > 0
        &&& self.bucket as int == bucket_index(
            K::hash_of(self.key@),
            deep(self.map.buckets@).len() as int,
        )
        &&& self.map@.len() < usize::MAX as nat
    }

    pub closed spec fn map_view(self) -> Map<K::V, V> {
        self.map@
    }

    pub closed spec fn key_view(self) -> K::V {
        self.key@
    }
}

impl<K: MapKey, V> Entry<K, V> {
    pub closed spec fn wf(self) -> bool {
        match self {
            Entry::Occupied(o) => o.wf(),
            Entry::Vacant(v) => v.wf(),
        }
    }

    /// The table contents the entry was taken from (after any growth).
    pub closed spec fn map_view(self) -> Map<K::V, V> {
        match self {
            Entry::Occupied(o) => o.map_view(),
            Entry::Vacant(v) => v.map_view(),
        }
    }

    /// The abstract value of the entry's key.
    pub closed spec fn key_view(self) -> K::V {
        match self {
            Entry::Occupied(o) => o.key_view(),
            Entry::Vacant(v) => v.key_view(),
        }
    }

    pub open spec fn is_occupied(self) -> bool {
        self is Occupied
    }

    /// The value currently stored for the key (meaningful only when occupied).
    pub closed spec fn current_value(self) -> V {
        match self {
            Entry::Occupied(o) => o.current_value(),
            Entry::Vacant(v) => vstd::pervasive::arbitrary(),
        }
    }

    /// Read-only access to the entry's key.
    pub fn key(&self) -> (k: &K)
        requires
            self.wf(),
        ensures
            k@ == self.key_view(),
    {
        match self {
            Entry::Occupied(o) => {
                let b = &o.map.buckets[o.bucket];
                &b[o.slot].0
            },
            Entry::Vacant(v) => &v.key,
        }
    }

    /// Returns the table: unchanged when the entry was occupied, and with
    /// `default` inserted under the entry's key when it was vacant.
    pub fn or_insert(self, default: V) -> (m: HashMap<K, V>)
        requires
            self.wf(),
        ensures
            m.wf(),
            m@ == if self.is_occupied() {
                self.map_view()
            } else {
                self.map_view().insert(self.key_view(), default)
            },
    {
        match self {
            Entry::Occupied(o) => o.map,
            Entry::Vacant(v) => v.insert_value(default),
        }
    }

    /// Like `or_insert`, but the default is produced lazily: the producer runs
    /// only on the vacant path.
    pub fn or_insert_with<F: FnOnce() -> V>(self, f: F) -> (m: HashMap<K, V>)
        requires
            self.wf(),
            !self.is_occupied() ==> f.requires(()),
        ensures
            m.wf(),
            self.is_occupied() ==> m@ == self.map_view(),
            !self.is_occupied() ==> exists|d: V|
                #[trigger] f.ensures((), d) && m@ == self.map_view().insert(self.key_view(), d),
    {
        match self {
            Entry::Occupied(o) => o.map,
            Entry::Vacant(v) => {
                let d = f();
                v.insert_value(d)
            },
        }
    }

    /// Like `or_insert_with`, but the producer receives the key; it runs only
    /// on the vacant path.
    pub fn or_insert_with_key<F: FnOnce(&K) -> V>(self, f: F) -> (m: HashMap<K, V>)
        requires
            self.wf(),
            !self.is_occupied() ==> forall|k: &K| k@ == self.key_view() ==> f.requires((k,)),
        ensures
            m.wf(),
            self.is_occupied() ==> m@ == self.map_view(),
            !self.is_occupied() ==> exists|k: &K, d: V|
                k@ == self.key_view() && #[trigger] f.ensures((k, ), d) && m@
                    == self.map_view().insert(self.key_view(), d),
    {
        match self {
            Entry::Occupied(o) => o.map,
            Entry::Vacant(v) => {
                let d = f(&v.key);
                v.insert_value(d)
            },
        }
    }

    /// Applies `mutator` to the stored value when the entry is occupied (the
    /// key then maps to the mutator's result); a vacant entry is returned
    /// unchanged. The resulting entry supports further chaining.
    pub fn and_modify<F: FnOnce(V) -> V>(self, mutator: F) -> (e2: Entry<K, V>)
        requires
            self.wf(),
            self.is_occupied() ==> mutator.requires((self.current_value(),)),
        ensures
            e2.wf(),
            e2.is_occupied() == self.is_occupied(),
            e2.key_view() == self.key_view(),
            !self.is_occupied() ==> e2 == self,
            self.is_occupied() ==> exists|v2: V|
                #[trigger] mutator.ensures((self.current_value(),), v2) && e2.map_view()
                    == self.map_view().insert(self.key_view(), v2) && e2.current_value() == v2,
    {
        match self {
            Entry::Occupied(o) => {
                let OccupiedEntry { mut map, bucket, slot } = o;
                let ghost bs = deep(map.buckets@);
                let ghost kv = bs[bucket as int][slot as int].0@;
                proof {
                    lemma_at_slot::<K, V>(bs, bucket as int, slot as int);
                    lemma_remove_slot::<K, V>(bs, bucket as int, slot as int);
                }
                let b = &mut map.buckets[bucket];
                let p = b.swap_remove(slot);
                let (k0, v1) = p;
                let v2 = mutator(v1);
                let ghost bs2 = deep(map.buckets@);
                proof {
                    assert(bs2 =~= bs.update(
                        bucket as int,
                        bs[bucket as int].update(slot as int, bs[bucket as int].last()).drop_last(),
                    ));
                    assert(!tbl_has(bs2, kv));
                    lemma_push_slot::<K, V>(bs2, bucket as int, (k0, v2));
                }
                let b2 = &mut map.buckets[bucket];
                b2.push((k0, v2));
                let new_slot = {
                    let b3 = &map.buckets[bucket];
                    b3.len() - 1
                };
                proof {
                    let bs3 = deep(map.buckets@);
                    assert(bs3 =~= bs2.update(bucket as int, bs2[bucket as int].push((k0, v2))));
                    assert(map@ =~= tbl_map(bs).insert(kv, v2)) by {
                        assert forall|kv2: K::V| #[trigger]
                            tbl_has(bs3, kv2) <==> tbl_map(bs).insert(kv, v2).contains_key(
                            kv2,
                        ) by {}
                        assert forall|kv2: K::V| #[trigger] tbl_has(bs3, kv2) implies tbl_get(
                            bs3,
                            kv2,
                        ) == tbl_map(bs).insert(kv, v2)[kv2] by {
                            if kv2 != kv {
                                assert(tbl_get(bs3, kv2) == tbl_get(bs2, kv2));
                                assert(tbl_get(bs2, kv2) == tbl_get(bs, kv2));
                            }
                        }
                    }
                    lemma_at_slot::<K, V>(bs3, bucket as int, new_slot as int);
                }
                Entry::Occupied(OccupiedEntry { map, bucket, slot: new_slot })
            },
            Entry::Vacant(v) => Entry::Vacant(v),
        }
    }
}

impl<K: MapKey, V> VacantEntry<K, V> {
    /// Inserts `value` under the retained key, at the retained bucket; the
    /// growth decision was already made when the entry was created.
    fn insert_value(self, value: V) -> (m: HashMap<K, V>)
        requires
            self.wf(),
        ensures
            m.wf(),
            m@ == self.map_view().insert(self.key_view(), value),
    {
        let VacantEntry { key, map, bucket } = self;
        let mut map = map;
        let ghost kv = key@;
        let ghost bs = deep(map.buckets@);
        proof {
            lemma_dom_card::<K, V>(bs);
            assert(map@.dom() =~= tbl_dom::<K, V>(bs));
            lemma_push_slot::<K, V>(bs, bucket as int, (key, value));
        }
        let b = &mut map.buckets[bucket];
        b.push((key, value));
        map.items = map.items + 1;
        proof {
            let bs2 = deep(map.buckets@);
            assert(bs2 =~= bs.update(bucket as int, bs[bucket as int].push((key, value))));
            assert(map@ =~= tbl_map(bs).insert(kv, value)) by {
                assert forall|kv2: K::V| #[trigger]
                    tbl_has(bs2, kv2) <==> tbl_map(bs).insert(kv, value).contains_key(kv2) by {}
                assert forall|kv2: K::V| #[trigger] tbl_has(bs2, kv2) implies tbl_get(bs2, kv2)
                    == tbl_map(bs).insert(kv, value)[kv2] by {
                    if kv2 != kv {
                        assert(tbl_get(bs2, kv2) == tbl_get(bs, kv2));
                    }
                }
            }
        }
        map
    }
}

impl<K: MapKey, V> HashMap<K, V> {
    /// A single lookup that yields either exclusive access to the key's pair
    /// or the context needed to insert it without a second hash or growth
    /// decision. The growth check runs here, exactly as before an insertion.
    pub fn entry(self, key: K) -> (e: Entry<K, V>)
        requires
            self.wf(),
            self@.len() < usize::MAX as nat / 4,
        ensures
            e.wf(),
            e.map_view() == self@,
            e.key_view() == key@,
            e.is_occupied() <==> self@.contains_key(key@),
            e.is_occupied() ==> e.current_value() == self@[key@],
    {
        let ghost kv = key@;
        let mut m = self;
        proof {
            lemma_dom_card::<K, V>(deep(m.buckets@));
            assert(m@.dom() =~= tbl_dom::<K, V>(deep(m.buckets@)));
        }
        if m.buckets.len() == 0 || (m.items as u128) > 3u128 * (m.buckets.len() as u128) / 4u128 {
            m.resize();
        }
        let n = m.buckets.len();
        let h = key.hash_code();
        let idx = (h % (n as u64)) as usize;
        let ghost bs = deep(m.buckets@);
        proof {
            assert(idx as int == bucket_index(K::hash_of(kv), bs.len() as int));
            assert(m.buckets@[idx as int]@ == bs[idx as int]);
        }
        match find_in_bucket(&m.buckets[idx], &key) {
            Some(j) => {
                proof {
                    lemma_at_slot::<K, V>(bs, idx as int, j as int);
                }
                Entry::Occupied(OccupiedEntry { map: m, bucket: idx, slot: j })
            },
            None => {
                proof {
                    if tbl_has(bs, kv) {
                        let (a, c) = tbl_witness::<K, V>(bs, kv);
                        assert(bucket_index(K::hash_of(bs[a][c].0@), bs.len() as int) == a);
                        assert(false);
                    }
                    lemma_dom_card::<K, V>(bs);
                    assert(m@.dom() =~= tbl_dom::<K, V>(bs));
                }
                Entry::Vacant(VacantEntry { key, map: m, bucket: idx })
            },
        }
    }
}

} // verus!
