use vstd::prelude::*;

use crate::hashmap::{
    deep, distinct_keys, lemma_at_slot, lemma_dom_card, lemma_remove_slot, pair_count, tbl_dom,
    tbl_witness, HashMap,
};
use crate::key::MapKey;

verus! {

/// The pairs a cursor standing at bucket `i`, offset `j` has yet to produce:
/// the rest of bucket `i`, then every later bucket in order.
pub open spec fn suffix_pairs<K, V>(bs: Seq<Seq<(K, V)>>, i: int, j: int) -> Seq<(K, V)>
    decreases bs.len() - i,
{
    if i < 0 || i >= bs.len() {
        Seq::empty()
    } else {
        bs[i].skip(j) + suffix_pairs(bs, i + 1, 0)
    }
}

/// Is `p` stored in some slot of a bucket at or after `i`?
pub open spec fn slot_with<K, V>(bs: Seq<Seq<(K, V)>>, i: int, p: (K, V)) -> bool {
    exists|a: int, c: int|
        #![trigger bs[a][c]]
        i <= a < bs.len() && 0 <= c < bs[a].len() && bs[a][c] == p
}

/// Every pair that `suffix_pairs(bs, i, 0)` lists is a slot of a bucket at or
/// after `i`, and conversely.
pub proof fn lemma_suffix_slots<K, V>(bs: Seq<Seq<(K, V)>>, i: int)
    requires
        0 <= i <= bs.len(),
    ensures
        forall|t: int|
            0 <= t < suffix_pairs(bs, i, 0).len() ==> slot_with(
                bs,
                i,
                #[trigger] suffix_pairs(bs, i, 0)[t],
            ),
        forall|a: int, c: int|
            #![trigger bs[a][c]]
            i <= a < bs.len() && 0 <= c < bs[a].len() ==> suffix_pairs(bs, i, 0).contains(
                bs[a][c],
            ),
    decreases bs.len() - i,
{
    let s = suffix_pairs(bs, i, 0);
    if i == bs.len() {
    } else {
        lemma_suffix_slots::<K, V>(bs, i + 1);
        let rest = suffix_pairs(bs, i + 1, 0);
        assert(bs[i].skip(0) =~= bs[i]);
        assert(s == bs[i] + rest);
        let m = bs[i].len();
        assert forall|t: int| 0 <= t < s.len() implies slot_with(bs, i, #[trigger] s[t]) by {
            if t < m {
                assert(bs[i][t] == s[t]);
            } else {
                assert(s[t] == rest[t - m]);
                assert(slot_with(bs, i + 1, rest[t - m]));
                let (a, c) = choose|a: int, c: int|
                    #![trigger bs[a][c]]
                    i + 1 <= a < bs.len() && 0 <= c < bs[a].len() && bs[a][c] == rest[t - m];
                assert(bs[a][c] == s[t]);
            }
        }
        assert forall|a: int, c: int|
            #![trigger bs[a][c]]
            i <= a < bs.len() && 0 <= c < bs[a].len() implies s.contains(bs[a][c]) by {
            if a == i {
                assert(s[c] == bs[i][c]);
            } else {
                assert(rest.contains(bs[a][c]));
                let t0 = choose|t0: int| 0 <= t0 < rest.len() && rest[t0] == bs[a][c];
                assert(s[t0 + m] == bs[a][c]);
            }
        }
    }
}

/// Dropping the last bucket drops exactly the tail segment of the pending
/// sequence.
proof fn lemma_suffix_drop_last<K, V>(bs: Seq<Seq<(K, V)>>, i: int)
    requires
        bs.len() > 0,
        0 <= i <= bs.len() - 1,
    ensures
        suffix_pairs(bs, i, 0) == suffix_pairs(bs.drop_last(), i, 0) + bs.last(),
    decreases bs.len() - i,
{
    let bs2 = bs.drop_last();
    if i == bs.len() - 1 {
        assert(bs[i].skip(0) =~= bs[i]);
        assert(suffix_pairs(bs, i + 1, 0) =~= Seq::<(K, V)>::empty());
        assert(suffix_pairs(bs2, i, 0) =~= Seq::<(K, V)>::empty());
        assert(suffix_pairs(bs, i, 0) =~= suffix_pairs(bs2, i, 0) + bs.last());
    } else {
        lemma_suffix_drop_last::<K, V>(bs, i + 1);
        assert(bs[i].skip(0) =~= bs[i]);
        assert(bs2[i].skip(0) =~= bs2[i]);
        assert(bs2[i] == bs[i]);
        assert(suffix_pairs(bs, i, 0) =~= suffix_pairs(bs2, i, 0) + bs.last());
    }
}

/// A cursor standing at the first bucket has one pending pair per stored pair.
pub proof fn lemma_suffix_total_len<K, V>(bs: Seq<Seq<(K, V)>>)
    ensures
        suffix_pairs(bs, 0, 0).len() == pair_count(bs),
    decreases bs.len(),
{
    if bs.len() > 0 {
        lemma_suffix_total_len::<K, V>(bs.drop_last());
        lemma_suffix_drop_last::<K, V>(bs, 0);
    }
}

/// The wiring shared by the borrowing cursors: the position is inside the
/// table, and the offset never exceeds the current bucket's length.
pub open spec fn cursor_ok<K, V>(bs: Seq<Seq<(K, V)>>, bucket: int, pair: int) -> bool {
    &&& 0 <= bucket <= bs.len()
    &&& 0 <= pair
    &&& bucket < bs.len() ==> pair <= bs[bucket].len()
    &&& bucket == bs.len() ==> pair == 0
}

/// A borrowing cursor over (key reference, value reference) pairs, in bucket
/// order and in-bucket offset order.
pub struct Pairs<'m, K, V> {
    map: &'m HashMap<K, V>,
    bucket: usize,
    pair: usize,
}

impl<'m, K: MapKey, V> Pairs<'m, K, V> {
    pub closed spec fn wf(self) -> bool {
        &&& self.map.wf()
        &&& cursor_ok(deep(self.map.buckets@), self.bucket as int, self.pair as int)
    }

    /// The pairs not yet produced.
    pub closed spec fn remaining(self) -> Seq<(K, V)> {
        suffix_pairs(deep(self.map.buckets@), self.bucket as int, self.pair as int)
    }

    /// The contents of the table being walked.
    pub closed spec fn map_view(self) -> Map<K::V, V> {
        self.map@
    }

    /// Produces the next pair, or nothing once every pair has been produced.
    pub fn next(&mut self) -> (r: Option<(&'m K, &'m V)>)
        requires
            old(self).wf(),
        ensures
            final(self).wf(),
            final(self).map_view() == old(self).map_view(),
            match r {
                Some(p) => old(self).remaining().len() > 0 && *p.0 == old(self).remaining()[0].0
                    && *p.1 == old(self).remaining()[0].1 && final(self).remaining() == old(self).remaining().drop_first(),
                None => old(self).remaining().len() == 0 && final(self).remaining() == old(self).remaining(),
            },
    {
        let m = self.map;
        let ghost bs = deep(m.buckets@);
        while self.bucket < m.buckets.len()
            invariant
                self.map == m,
                m == old(self).map,
                m.wf(),
                cursor_ok(bs, self.bucket as int, self.pair as int),
                bs == deep(m.buckets@),
                suffix_pairs(bs, self.bucket as int, self.pair as int) == old(self).remaining(),
            decreases bs.len() - self.bucket,
        {
            let b = &m.buckets[self.bucket];
            if self.pair < b.len() {
                let ghost rem = suffix_pairs(bs, self.bucket as int, self.pair as int);
                let p = &b[self.pair];
                proof {
                    assert(bs[self.bucket as int].skip(self.pair as int)[0] == bs[self.bucket as int][self.pair as int]);
                    assert(rem[0] == bs[self.bucket as int][self.pair as int]);
                    assert(bs[self.bucket as int].skip(self.pair as int).drop_first() =~= bs[self.bucket as int].skip(self.pair as int + 1));
                    assert(rem.drop_first() =~= suffix_pairs(bs, self.bucket as int, self.pair as int + 1));
                }
                self.pair = self.pair + 1;
                return Some((&p.0, &p.1));
            } else {
                proof {
                    assert(bs[self.bucket as int].skip(self.pair as int) =~= Seq::empty());
                    assert(suffix_pairs(bs, self.bucket as int, self.pair as int)
                        =~= suffix_pairs(bs, self.bucket as int + 1, 0));
                }
                self.bucket = self.bucket + 1;
                self.pair = 0;
            }
        }
        None
    }
}

/// An owning cursor that drains the table: each step removes the tail pair of
/// the first non-empty bucket and hands it to the caller.
pub struct IntoPairs<K, V> {
    map: HashMap<K, V>,
    bucket: usize,
}

impl<K: MapKey, V> IntoPairs<K, V> {
    pub closed spec fn wf(self) -> bool {
        &&& distinct_keys::<K, V>(deep(self.map.buckets@))
        &&& self.bucket <= deep(self.map.buckets@).len()
        &&& forall|t: int|
            0 <= t < self.bucket ==> (#[trigger] deep(self.map.buckets@)[t]).len() == 0
    }

    /// The pairs not yet drained.
    pub closed spec fn remaining(self) -> Seq<(K, V)> {
        suffix_pairs(deep(self.map.buckets@), self.bucket as int, 0)
    }

    /// Removes and returns one stored pair, or nothing once the table has been
    /// fully drained. The order is bucket order, draining each bucket from its
    /// tail, so it need not match insertion order.
    pub fn next(&mut self) -> (r: Option<(K, V)>)
        requires
            old(self).wf(),
        ensures
            final(self).wf(),
            match r {
                Some(p) => exists|t: int|
                    0 <= t < old(self).remaining().len() && p == old(self).remaining()[t] && final(self).remaining() == old(self).remaining().remove(t),
                None => old(self).remaining().len() == 0 && final(self).remaining() == old(self).remaining(),
            },
    {
        while self.bucket < self.map.buckets.len()
            invariant
                old(self).wf(),
                distinct_keys::<K, V>(deep(self.map.buckets@)),
                self.bucket <= deep(self.map.buckets@).len(),
                forall|t: int|
                    0 <= t < self.bucket ==> (#[trigger] deep(self.map.buckets@)[t]).len() == 0,
                suffix_pairs(deep(self.map.buckets@), self.bucket as int, 0) == old(
                    self,
                ).remaining(),
            decreases deep(self.map.buckets@).len() - self.bucket,
        {
            let ghost bs = deep(self.map.buckets@);
            let ghost i = self.bucket as int;
            let blen = {
                let b = &self.map.buckets[self.bucket];
                b.len()
            };
            if blen > 0 {
                let ghost jj = bs[i].len() - 1;
                proof {
                    lemma_remove_slot::<K, V>(bs, i, jj);
                    assert(bs[i].update(jj, bs[i].last()).drop_last() =~= bs[i].drop_last());
                }
                let b = &mut self.map.buckets[self.bucket];
                let p = match b.pop() {
                    Some(p) => p,
                    None => {
                        proof {
                            assert(false);
                        }
                        unreached()
                    },
                };
                proof {
                    let bs2 = deep(self.map.buckets@);
                    assert(bs2 =~= bs.update(i, bs[i].drop_last()));
                    let rem = suffix_pairs(bs, i, 0);
                    let rem2 = suffix_pairs(bs2, i, 0);
                    assert(bs[i].skip(0) =~= bs[i]);
                    assert(bs2[i].skip(0) =~= bs2[i]);
                    assert forall|a: int| i < a < bs.len() implies bs2[a] == bs[a] by {}
                    lemma_suffix_unchanged::<K, V>(bs, bs2, i + 1);
                    assert(rem =~= bs[i] + suffix_pairs(bs, i + 1, 0));
                    assert(rem2 =~= bs[i].drop_last() + suffix_pairs(bs, i + 1, 0));
                    assert(p == bs[i][jj]);
                    assert(rem2 =~= rem.remove(jj));
                    assert(0 <= jj < rem.len());
                    assert(rem[jj] == p);
                }
                return Some(p);
            } else {
                proof {
                    assert(bs[i].skip(0) =~= Seq::empty());
                    assert(suffix_pairs(bs, i, 0) =~= suffix_pairs(bs, i + 1, 0));
                }
                self.bucket = self.bucket + 1;
            }
        }
        None
    }
}

/// Two tables that agree on every bucket at or after `i` have the same suffix.
pub proof fn lemma_suffix_unchanged<K, V>(bs: Seq<Seq<(K, V)>>, bs2: Seq<Seq<(K, V)>>, i: int)
    requires
        bs.len() == bs2.len(),
        forall|a: int| i <= a < bs.len() ==> bs[a] == bs2[a],
    ensures
        suffix_pairs(bs, i, 0) == suffix_pairs(bs2, i, 0),
    decreases bs.len() - i,
{
    if 0 <= i < bs.len() {
        lemma_suffix_unchanged::<K, V>(bs, bs2, i + 1);
        assert(suffix_pairs(bs, i, 0) =~= suffix_pairs(bs2, i, 0));
    } else {
        assert(suffix_pairs(bs, i, 0) =~= suffix_pairs(bs2, i, 0));
    }
}

/// A borrowing cursor over key references, in the same order as `Pairs`.
pub struct Keys<'m, K, V> {
    inner: Pairs<'m, K, V>,
}

impl<'m, K: MapKey, V> Keys<'m, K, V> {
    pub closed spec fn wf(self) -> bool {
        self.inner.wf()
    }

    pub closed spec fn remaining(self) -> Seq<(K, V)> {
        self.inner.remaining()
    }

    pub closed spec fn map_view(self) -> Map<K::V, V> {
        self.inner.map_view()
    }

    /// Produces the next key, or nothing once every key has been produced.
    pub fn next(&mut self) -> (r: Option<&'m K>)
        requires
            old(self).wf(),
        ensures
            final(self).wf(),
            final(self).map_view() == old(self).map_view(),
            match r {
                Some(k) => old(self).remaining().len() > 0 && *k == old(self).remaining()[0].0
                    && final(self).remaining() == old(self).remaining().drop_first(),
                None => old(self).remaining().len() == 0 && final(self).remaining() == old(self).remaining(),
            },
    {
        match self.inner.next() {
            Some(p) => Some(p.0),
            None => None,
        }
    }
}

/// A borrowing cursor over value references, in the same order as `Pairs`.
pub struct Values<'m, K, V> {
    inner: Pairs<'m, K, V>,
}

impl<'m, K: MapKey, V> Values<'m, K, V> {
    pub closed spec fn wf(self) -> bool {
        self.inner.wf()
    }

    pub closed spec fn remaining(self) -> Seq<(K, V)> {
        self.inner.remaining()
    }

    pub closed spec fn map_view(self) -> Map<K::V, V> {
        self.inner.map_view()
    }

    /// Produces the next value, or nothing once every value has been produced.
    pub fn next(&mut self) -> (r: Option<&'m V>)
        requires
            old(self).wf(),
        ensures
            final(self).wf(),
            final(self).map_view() == old(self).map_view(),
            match r {
                Some(v) => old(self).remaining().len() > 0 && *v == old(self).remaining()[0].1
                    && final(self).remaining() == old(self).remaining().drop_first(),
                None => old(self).remaining().len() == 0 && final(self).remaining() == old(self).remaining(),
            },
    {
        match self.inner.next() {
            Some(p) => Some(p.1),
            None => None,
        }
    }
}

impl<K: MapKey, V> HashMap<K, V> {
    /// The one table-determined sequence every fresh cursor starts from: the
    /// stored pairs in bucket order, in-bucket offset order. `pairs`, `keys`,
    /// `values` and `into_pairs` all begin at this sequence, so their yield
    /// orders agree.
    pub closed spec fn start_seq(self) -> Seq<(K, V)> {
        suffix_pairs(deep(self.buckets@), 0, 0)
    }

    /// The completeness guarantee every fresh cursor starts from: the pending
    /// pairs are exactly the table's contents, each key once with the value a
    /// lookup would return.
    pub open spec fn cursor_complete(self, rem: Seq<(K, V)>) -> bool {
        &&& forall|kv: K::V| #[trigger]
            self@.contains_key(kv) <==> exists|t: int| 0 <= t < rem.len() && (#[trigger] rem[t]).0@
                == kv
        &&& forall|t: int|
            0 <= t < rem.len() ==> self@.contains_key((#[trigger] rem[t]).0@) && self@[rem[t].0@]
                == rem[t].1
        &&& forall|t1: int, t2: int|
            0 <= t1 < rem.len() && 0 <= t2 < rem.len() && (#[trigger] rem[t1]).0@ == (
            #[trigger] rem[t2]).0@ ==> t1 == t2
    }

    proof fn lemma_start_complete(self)
        requires
            self.wf(),
        ensures
            self.cursor_complete(suffix_pairs(deep(self.buckets@), 0, 0)),
    {
        let bs = deep(self.buckets@);
        let rem = suffix_pairs(bs, 0, 0);
        lemma_suffix_slots::<K, V>(bs, 0);
        assert forall|kv: K::V| #[trigger] self@.contains_key(kv) implies exists|t: int|
            0 <= t < rem.len() && (#[trigger] rem[t]).0@ == kv by {
            let (a, c) = tbl_witness::<K, V>(bs, kv);
            assert(rem.contains(bs[a][c]));
            let t = choose|t: int| 0 <= t < rem.len() && rem[t] == bs[a][c];
            assert(rem[t].0@ == kv);
        }
        assert forall|kv: K::V|
            (exists|t: int| 0 <= t < rem.len() && (#[trigger] rem[t]).0@ == kv) implies
            self@.contains_key(kv) by {
            let t = choose|t: int| 0 <= t < rem.len() && (#[trigger] rem[t]).0@ == kv;
            assert(slot_with(bs, 0, rem[t]));
            let (a, c) = choose|a: int, c: int|
                #![trigger bs[a][c]]
                0 <= a < bs.len() && 0 <= c < bs[a].len() && bs[a][c] == rem[t];
            lemma_at_slot::<K, V>(bs, a, c);
        }
        assert forall|t: int| 0 <= t < rem.len() implies self@.contains_key((#[trigger] rem[t]).0@)
            && self@[rem[t].0@] == rem[t].1 by {
            assert(slot_with(bs, 0, rem[t]));
            let (a, c) = choose|a: int, c: int|
                #![trigger bs[a][c]]
                0 <= a < bs.len() && 0 <= c < bs[a].len() && bs[a][c] == rem[t];
            lemma_at_slot::<K, V>(bs, a, c);
        }
        assert forall|t1: int, t2: int|
            0 <= t1 < rem.len() && 0 <= t2 < rem.len() && (#[trigger] rem[t1]).0@ == (
            #[trigger] rem[t2]).0@ implies t1 == t2 by {
            if t1 != t2 {
                lemma_suffix_inj::<K, V>(bs, 0, t1, t2);
            }
        }
    }

    proof fn lemma_start_len(self)
        requires
            self.wf(),
        ensures
            suffix_pairs(deep(self.buckets@), 0, 0).len() == self@.len(),
    {
        let bs = deep(self.buckets@);
        lemma_suffix_total_len::<K, V>(bs);
        lemma_dom_card::<K, V>(bs);
        assert(self@.dom() =~= tbl_dom::<K, V>(bs));
    }

    /// A borrowing cursor over all pairs, starting at the first bucket.
    pub fn pairs<'m>(&'m self) -> (it: Pairs<'m, K, V>)
        requires
            self.wf(),
        ensures
            it.wf(),
            it.map_view() == self@,
            it.remaining() == self.start_seq(),
            it.remaining().len() == self@.len(),
            self.cursor_complete(it.remaining()),
    {
        proof {
            self.lemma_start_complete();
            self.lemma_start_len();
        }
        Pairs { map: self, bucket: 0, pair: 0 }
    }

    /// A borrowing cursor over all keys.
    pub fn keys<'m>(&'m self) -> (it: Keys<'m, K, V>)
        requires
            self.wf(),
        ensures
            it.wf(),
            it.map_view() == self@,
            it.remaining() == self.start_seq(),
            it.remaining().len() == self@.len(),
            self.cursor_complete(it.remaining()),
    {
        proof {
            self.lemma_start_complete();
            self.lemma_start_len();
        }
        Keys { inner: Pairs { map: self, bucket: 0, pair: 0 } }
    }

    /// A borrowing cursor over all values.
    pub fn values<'m>(&'m self) -> (it: Values<'m, K, V>)
        requires
            self.wf(),
        ensures
            it.wf(),
            it.map_view() == self@,
            it.remaining() == self.start_seq(),
            it.remaining().len() == self@.len(),
            self.cursor_complete(it.remaining()),
    {
        proof {
            self.lemma_start_complete();
            self.lemma_start_len();
        }
        Values { inner: Pairs { map: self, bucket: 0, pair: 0 } }
    }

    /// Consumes the table into a draining cursor over owned pairs; once it is
    /// exhausted the table is gone.
    pub fn into_pairs(self) -> (it: IntoPairs<K, V>)
        requires
            self.wf(),
        ensures
            it.wf(),
            it.remaining() == self.start_seq(),
            it.remaining().len() == self@.len(),
            self.cursor_complete(it.remaining()),
    {
        proof {
            self.lemma_start_complete();
            self.lemma_start_len();
        }
        IntoPairs { map: self, bucket: 0 }
    }
}

/// Distinct positions of a suffix map to slots with distinct keys.
proof fn lemma_suffix_inj<K: View, V>(bs: Seq<Seq<(K, V)>>, i: int, t1: int, t2: int)
    requires
        0 <= i <= bs.len(),
        distinct_keys::<K, V>(bs),
        0 <= t1 < suffix_pairs(bs, i, 0).len(),
        0 <= t2 < suffix_pairs(bs, i, 0).len(),
        t1 != t2,
    ensures
        suffix_pairs(bs, i, 0)[t1].0@ != suffix_pairs(bs, i, 0)[t2].0@,
    decreases bs.len() - i,
{
    let s = suffix_pairs(bs, i, 0);
    let rest = suffix_pairs(bs, i + 1, 0);
    assert(bs[i].skip(0) =~= bs[i]);
    let m = bs[i].len();
    lemma_suffix_slots::<K, V>(bs, i + 1);
    if t1 < m && t2 < m {
        assert(s[t1] == bs[i][t1]);
        assert(s[t2] == bs[i][t2]);
        if s[t1].0@ == s[t2].0@ {
            assert(bs[i][t1].0@ == bs[i][t2].0@);
            assert(false);
        }
    } else if t1 < m {
        assert(s[t2] == rest[t2 - m]);
        assert(slot_with(bs, i + 1, rest[t2 - m]));
        let (a, c) = choose|a: int, c: int|
            #![trigger bs[a][c]]
            i + 1 <= a < bs.len() && 0 <= c < bs[a].len() && bs[a][c] == rest[t2 - m];
        if s[t1].0@ == s[t2].0@ {
            assert(bs[i][t1].0@ == bs[a][c].0@);
            assert(false);
        }
    } else if t2 < m {
        assert(s[t1] == rest[t1 - m]);
        assert(slot_with(bs, i + 1, rest[t1 - m]));
        let (a, c) = choose|a: int, c: int|
            #![trigger bs[a][c]]
            i + 1 <= a < bs.len() && 0 <= c < bs[a].len() && bs[a][c] == rest[t1 - m];
        if s[t1].0@ == s[t2].0@ {
            assert(bs[a][c].0@ == bs[i][t2].0@);
            assert(false);
        }
    } else {
        lemma_suffix_inj::<K, V>(bs, i + 1, t1 - m, t2 - m);
        assert(s[t1] == rest[t1 - m]);
        assert(s[t2] == rest[t2 - m]);
    }
}

} // verus!
