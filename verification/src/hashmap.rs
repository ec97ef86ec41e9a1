pub mod entry;
pub mod iter;

use vstd::prelude::*;

use crate::key::{KeyQuery, MapKey};

verus! {

/// A hash table with separate chaining: an array of buckets, each bucket an
/// unordered list of key/value pairs, plus a live-item counter. The table
/// starts with zero buckets and doubles the bucket count whenever the item
/// count exceeds three quarters of it.
pub struct HashMap<K, V> {
    pub(crate) buckets: Vec<Vec<(K, V)>>,
    pub(crate) items: usize,
}

/// The abstract contents of the bucket array: each bucket as a sequence.
pub open spec fn deep<K, V>(bs: Seq<Vec<(K, V)>>) -> Seq<Seq<(K, V)>> {
    Seq::new(bs.len(), |i: int| bs[i]@)
}

/// The bucket that a hash selects in a table of `n` buckets.
pub open spec fn bucket_index(h: u64, n: int) -> int
    recommends
        n > 0,
{
    h as int % n
}

/// Does some slot of the table hold a key with abstract value `kv`?
pub open spec fn tbl_has<K: View, V>(bs: Seq<Seq<(K, V)>>, kv: K::V) -> bool {
    exists|i: int, j: int|
        #![trigger bs[i][j]]
        0 <= i < bs.len() && 0 <= j < bs[i].len() && bs[i][j].0@ == kv
}

/// The value stored beside the key with abstract value `kv` (meaningful only
/// when `tbl_has` holds).
pub open spec fn tbl_get<K: View, V>(bs: Seq<Seq<(K, V)>>, kv: K::V) -> V {
    let (i, j) = choose|i: int, j: int|
        #![trigger bs[i][j]]
        0 <= i < bs.len() && 0 <= j < bs[i].len() && bs[i][j].0@ == kv;
    bs[i][j].1
}

/// Every stored pair sits in the bucket its key's hash selects.
pub open spec fn placed<K: MapKey, V>(bs: Seq<Seq<(K, V)>>) -> bool {
    forall|i: int, j: int|
        #![trigger bs[i][j]]
        0 <= i < bs.len() && 0 <= j < bs[i].len() ==> bucket_index(
            K::hash_of(bs[i][j].0@),
            bs.len() as int,
        ) == i
}

/// No two slots hold keys with the same abstract value.
pub open spec fn distinct_keys<K: View, V>(bs: Seq<Seq<(K, V)>>) -> bool {
    forall|i1: int, j1: int, i2: int, j2: int|
        #![trigger bs[i1][j1], bs[i2][j2]]
        0 <= i1 < bs.len() && 0 <= j1 < bs[i1].len() && 0 <= i2 < bs.len() && 0 <= j2
            < bs[i2].len() && bs[i1][j1].0@ == bs[i2][j2].0@ ==> i1 == i2 && j1 == j2
}

/// Total number of stored pairs, over all buckets.
pub open spec fn pair_count<K, V>(bs: Seq<Seq<(K, V)>>) -> nat
    decreases bs.len(),
{
    if bs.len() == 0 {
        0
    } else {
        pair_count(bs.drop_last()) + bs.last().len()
    }
}

/// The set of key views stored in the table.
pub open spec fn tbl_dom<K: View, V>(bs: Seq<Seq<(K, V)>>) -> Set<K::V> {
    Set::new(|kv: K::V| tbl_has(bs, kv))
}

/// The table's contents as a map from key views to values.
pub open spec fn tbl_map<K: View, V>(bs: Seq<Seq<(K, V)>>) -> Map<K::V, V> {
    Map::new(|kv: K::V| tbl_has(bs, kv), |kv: K::V| tbl_get(bs, kv))
}

/// A slot's key is in the table, and `tbl_get` returns that slot's value.
pub proof fn lemma_at_slot<K: View, V>(bs: Seq<Seq<(K, V)>>, i: int, j: int)
    requires
        distinct_keys::<K, V>(bs),
        0 <= i < bs.len(),
        0 <= j < bs[i].len(),
    ensures
        tbl_has(bs, bs[i][j].0@),
        tbl_get(bs, bs[i][j].0@) == bs[i][j].1,
{
    let kv = bs[i][j].0@;
    assert(tbl_has(bs, kv));
    let (ci, cj) = choose|ci: int, cj: int|
        #![trigger bs[ci][cj]]
        0 <= ci < bs.len() && 0 <= cj < bs[ci].len() && bs[ci][cj].0@ == kv;
    assert(bs[ci][cj].0@ == bs[i][j].0@);
    assert(ci == i && cj == j);
}

/// When the keys are distinct, the number of distinct key views equals the
/// number of stored pairs.
pub proof fn lemma_dom_card<K: View, V>(bs: Seq<Seq<(K, V)>>)
    requires
        distinct_keys::<K, V>(bs),
    ensures
        tbl_dom::<K, V>(bs).finite(),
        tbl_dom::<K, V>(bs).len() == pair_count(bs),
    decreases bs.len(), pair_count(bs),
{
    if bs.len() == 0 {
        assert(tbl_dom::<K, V>(bs) =~= Set::<K::V>::empty());
    } else if bs.last().len() == 0 {
        let bs2 = bs.drop_last();
        assert(distinct_keys::<K, V>(bs2)) by {
            assert forall|i1: int, j1: int, i2: int, j2: int|
                0 <= i1 < bs2.len() && 0 <= j1 < bs2[i1].len() && 0 <= i2 < bs2.len() && 0 <= j2
                    < bs2[i2].len() && (#[trigger] bs2[i1][j1]).0@ == (#[trigger] bs2[i2][j2]).0@
                implies i1 == i2 && j1 == j2 by {
                assert(bs[i1][j1] == bs2[i1][j1]);
                assert(bs[i2][j2] == bs2[i2][j2]);
            }
        }
        lemma_dom_card::<K, V>(bs2);
        assert(tbl_dom::<K, V>(bs) =~= tbl_dom::<K, V>(bs2)) by {
            assert forall|kv: K::V| #[trigger] tbl_has(bs, kv) implies tbl_has(bs2, kv) by {
                let (i, j) = choose|i: int, j: int|
                    #![trigger bs[i][j]]
                    0 <= i < bs.len() && 0 <= j < bs[i].len() && bs[i][j].0@ == kv;
                assert(i < bs2.len());
                assert(bs2[i][j] == bs[i][j]);
                assert(tbl_has(bs2, kv));
            }
            assert forall|kv: K::V| #[trigger] tbl_has(bs2, kv) implies tbl_has(bs, kv) by {
                let (i, j) = choose|i: int, j: int|
                    #![trigger bs2[i][j]]
                    0 <= i < bs2.len() && 0 <= j < bs2[i].len() && bs2[i][j].0@ == kv;
                assert(bs[i][j] == bs2[i][j]);
                assert(tbl_has(bs, kv));
            }
        }
    } else {
        let n = bs.len() - 1;
        let b = bs.last();
        let p = b.last();
        let bs2 = bs.update(n, b.drop_last());
        assert(distinct_keys::<K, V>(bs2)) by {
            assert forall|i1: int, j1: int, i2: int, j2: int|
                0 <= i1 < bs2.len() && 0 <= j1 < bs2[i1].len() && 0 <= i2 < bs2.len() && 0 <= j2
                    < bs2[i2].len() && (#[trigger] bs2[i1][j1]).0@ == (#[trigger] bs2[i2][j2]).0@
                implies i1 == i2 && j1 == j2 by {
                assert(bs2[i1][j1] == bs[i1][j1]);
                assert(bs2[i2][j2] == bs[i2][j2]);
            }
        }
        assert(pair_count(bs2) + 1 == pair_count(bs)) by {
            assert(bs2.drop_last() =~= bs.drop_last());
            assert(bs2.last() =~= b.drop_last());
        }
        lemma_dom_card::<K, V>(bs2);
        let kv0 = p.0@;
        assert(!tbl_dom::<K, V>(bs2).contains(kv0)) by {
            if tbl_has(bs2, kv0) {
                let (i, j) = choose|i: int, j: int|
                    #![trigger bs2[i][j]]
                    0 <= i < bs2.len() && 0 <= j < bs2[i].len() && bs2[i][j].0@ == kv0;
                assert(bs2[i][j] == bs[i][j]);
                assert(bs[i][j].0@ == bs[n][b.len() - 1].0@);
                assert(false);
            }
        }
        assert(tbl_dom::<K, V>(bs) =~= tbl_dom::<K, V>(bs2).insert(kv0)) by {
            assert forall|kv: K::V| #[trigger] tbl_has(bs, kv) implies tbl_has(bs2, kv) || kv
                == kv0 by {
                let (i, j) = choose|i: int, j: int|
                    #![trigger bs[i][j]]
                    0 <= i < bs.len() && 0 <= j < bs[i].len() && bs[i][j].0@ == kv;
                if i == n && j == b.len() - 1 {
                    assert(kv == kv0);
                } else if i == n {
                    assert(bs2[i][j] == bs[i][j]);
                    assert(tbl_has(bs2, kv));
                } else {
                    assert(bs2[i][j] == bs[i][j]);
                    assert(tbl_has(bs2, kv));
                }
            }
            assert forall|kv: K::V| #[trigger] tbl_has(bs2, kv) implies tbl_has(bs, kv) by {
                let (i, j) = choose|i: int, j: int|
                    #![trigger bs2[i][j]]
                    0 <= i < bs2.len() && 0 <= j < bs2[i].len() && bs2[i][j].0@ == kv;
                assert(bs[i][j] == bs2[i][j]);
                assert(tbl_has(bs, kv));
            }
            assert(tbl_has(bs, kv0)) by {
                assert(bs[n][b.len() - 1].0@ == kv0);
            }
        }
    }
}

/// Extracts the slot coordinates of a stored key view.
pub proof fn tbl_witness<K: View, V>(bs: Seq<Seq<(K, V)>>, kv: K::V) -> (ij: (int, int))
    requires
        tbl_has(bs, kv),
    ensures
        0 <= ij.0 < bs.len(),
        0 <= ij.1 < bs[ij.0].len(),
        bs[ij.0][ij.1].0@ == kv,
{
    choose|i: int, j: int|
        #![trigger bs[i][j]]
        0 <= i < bs.len() && 0 <= j < bs[i].len() && bs[i][j].0@ == kv
}

/// Replacing one bucket changes the pair count by the difference in lengths.
pub proof fn lemma_pair_count_update<K, V>(bs: Seq<Seq<(K, V)>>, i: int, b2: Seq<(K, V)>)
    requires
        0 <= i < bs.len(),
    ensures
        pair_count(bs.update(i, b2)) + bs[i].len() == pair_count(bs) + b2.len(),
    decreases bs.len(),
{
    let bs2 = bs.update(i, b2);
    if i == bs.len() - 1 {
        assert(bs2.drop_last() =~= bs.drop_last());
    } else {
        lemma_pair_count_update(bs.drop_last(), i, b2);
        assert(bs2.drop_last() =~= bs.drop_last().update(i, b2));
        assert(bs2.last() == bs.last());
    }
}

/// A table whose buckets are all empty stores no pairs.
pub proof fn lemma_pair_count_empty<K, V>(bs: Seq<Seq<(K, V)>>)
    requires
        forall|t: int| 0 <= t < bs.len() ==> (#[trigger] bs[t]).len() == 0,
    ensures
        pair_count(bs) == 0,
    decreases bs.len(),
{
    if bs.len() > 0 {
        let bs2 = bs.drop_last();
        assert forall|t: int| 0 <= t < bs2.len() implies (#[trigger] bs2[t]).len() == 0 by {
            assert(bs2[t] == bs[t]);
        }
        lemma_pair_count_empty(bs2);
    }
}

/// Appending a pair with a fresh key to bucket `i`: all other keys keep their
/// slots and values, the new key maps to the new value, and placement is
/// preserved when the pair lands in the bucket its hash selects.
pub proof fn lemma_push_slot<K: MapKey, V>(bs: Seq<Seq<(K, V)>>, i: int, p: (K, V))
    requires
        distinct_keys::<K, V>(bs),
        0 <= i < bs.len(),
        !tbl_has(bs, p.0@),
    ensures
        ({
            let bs2 = bs.update(i, bs[i].push(p));
            &&& distinct_keys::<K, V>(bs2)
            &&& placed::<K, V>(bs) && bucket_index(K::hash_of(p.0@), bs.len() as int) == i
                ==> placed::<K, V>(bs2)
            &&& pair_count(bs2) == pair_count(bs) + 1
            &&& tbl_has(bs2, p.0@)
            &&& tbl_get(bs2, p.0@) == p.1
            &&& forall|kv2: K::V|
                kv2 != p.0@ ==> (#[trigger] tbl_has(bs2, kv2) <==> tbl_has(bs, kv2))
            &&& forall|kv2: K::V|
                kv2 != p.0@ && #[trigger] tbl_has(bs, kv2) ==> tbl_get(bs2, kv2) == tbl_get(
                    bs,
                    kv2,
                )
        }),
{
    let b2 = bs[i].push(p);
    let bs2 = bs.update(i, b2);
    let m = bs[i].len() as int;
    assert(bs2[i][m] == p);
    assert forall|a: int, c: int|
        0 <= a < bs2.len() && 0 <= c < bs2[a].len() && !(a == i && c == m) implies (
    #[trigger] bs2[a][c]) == bs[a][c] && 0 <= c < bs[a].len() by {}
    // distinctness
    assert forall|i1: int, j1: int, i2: int, j2: int|
        0 <= i1 < bs2.len() && 0 <= j1 < bs2[i1].len() && 0 <= i2 < bs2.len() && 0 <= j2
            < bs2[i2].len() && (#[trigger] bs2[i1][j1]).0@ == (#[trigger] bs2[i2][j2]).0@ implies i1
        == i2 && j1 == j2 by {
        if i1 == i && j1 == m {
            if !(i2 == i && j2 == m) {
                assert(bs[i2][j2].0@ == p.0@);
                lemma_at_slot::<K, V>(bs, i2, j2);
                assert(false);
            }
        } else if i2 == i && j2 == m {
            assert(bs[i1][j1].0@ == p.0@);
            lemma_at_slot::<K, V>(bs, i1, j1);
            assert(false);
        } else {
            assert(bs[i1][j1].0@ == bs[i2][j2].0@);
        }
    }
    // placement
    if placed::<K, V>(bs) && bucket_index(K::hash_of(p.0@), bs.len() as int) == i {
        assert forall|a: int, c: int|
            0 <= a < bs2.len() && 0 <= c < bs2[a].len() implies bucket_index(
            K::hash_of((#[trigger] bs2[a][c]).0@),
            bs2.len() as int,
        ) == a by {
            if !(a == i && c == m) {
                assert(bs2[a][c] == bs[a][c]);
            }
        }
    }
    // count
    lemma_pair_count_update(bs, i, b2);
    // membership of the fresh key
    assert(tbl_has(bs2, p.0@));
    lemma_at_slot::<K, V>(bs2, i, m);
    // other keys
    assert forall|kv2: K::V| kv2 != p.0@ implies (#[trigger] tbl_has(bs2, kv2) <==> tbl_has(
        bs,
        kv2,
    )) by {
        if tbl_has(bs2, kv2) {
            let (a, c) = tbl_witness::<K, V>(bs2, kv2);
            assert(!(a == i && c == m));
            assert(bs[a][c].0@ == kv2);
            assert(tbl_has(bs, kv2));
        }
        if tbl_has(bs, kv2) {
            let (a, c) = tbl_witness::<K, V>(bs, kv2);
            assert(bs2[a][c].0@ == kv2);
            assert(tbl_has(bs2, kv2));
        }
    }
    assert forall|kv2: K::V| kv2 != p.0@ && #[trigger] tbl_has(bs, kv2) implies tbl_get(bs2, kv2)
        == tbl_get(bs, kv2) by {
        let (a, c) = tbl_witness::<K, V>(bs, kv2);
        lemma_at_slot::<K, V>(bs, a, c);
        assert(bs2[a][c] == bs[a][c]);
        lemma_at_slot::<K, V>(bs2, a, c);
    }
}

/// Overwriting the value in slot `(i, j)` with a pair whose key has the same
/// view: membership is unchanged, only that key's value changes.
pub proof fn lemma_set_value<K: MapKey, V>(bs: Seq<Seq<(K, V)>>, i: int, j: int, p2: (K, V))
    requires
        distinct_keys::<K, V>(bs),
        0 <= i < bs.len(),
        0 <= j < bs[i].len(),
        p2.0@ == bs[i][j].0@,
    ensures
        ({
            let bs2 = bs.update(i, bs[i].update(j, p2));
            &&& distinct_keys::<K, V>(bs2)
            &&& placed::<K, V>(bs) ==> placed::<K, V>(bs2)
            &&& pair_count(bs2) == pair_count(bs)
            &&& forall|kv2: K::V| #[trigger] tbl_has(bs2, kv2) <==> tbl_has(bs, kv2)
            &&& tbl_get(bs2, p2.0@) == p2.1
            &&& forall|kv2: K::V|
                kv2 != p2.0@ && #[trigger] tbl_has(bs, kv2) ==> tbl_get(bs2, kv2) == tbl_get(
                    bs,
                    kv2,
                )
        }),
{
    let b2 = bs[i].update(j, p2);
    let bs2 = bs.update(i, b2);
    assert(bs2[i][j] == p2);
    assert forall|a: int, c: int|
        0 <= a < bs2.len() && 0 <= c < bs2[a].len() && !(a == i && c == j) implies (
    #[trigger] bs2[a][c]) == bs[a][c] && 0 <= c < bs[a].len() by {}
    assert forall|i1: int, j1: int, i2: int, j2: int|
        0 <= i1 < bs2.len() && 0 <= j1 < bs2[i1].len() && 0 <= i2 < bs2.len() && 0 <= j2
            < bs2[i2].len() && (#[trigger] bs2[i1][j1]).0@ == (#[trigger] bs2[i2][j2]).0@ implies i1
        == i2 && j1 == j2 by {
        let kv1 = bs2[i1][j1].0@;
        assert(bs[i1][j1].0@ == kv1);
        assert(bs[i2][j2].0@ == kv1);
    }
    if placed::<K, V>(bs) {
        assert forall|a: int, c: int|
            0 <= a < bs2.len() && 0 <= c < bs2[a].len() implies bucket_index(
            K::hash_of((#[trigger] bs2[a][c]).0@),
            bs2.len() as int,
        ) == a by {
            assert(bs2[a][c].0@ == bs[a][c].0@);
        }
    }
    lemma_pair_count_update(bs, i, b2);
    assert forall|kv2: K::V| #[trigger] tbl_has(bs2, kv2) <==> tbl_has(bs, kv2) by {
        if tbl_has(bs2, kv2) {
            let (a, c) = tbl_witness::<K, V>(bs2, kv2);
            assert(bs[a][c].0@ == kv2);
            assert(tbl_has(bs, kv2));
        }
        if tbl_has(bs, kv2) {
            let (a, c) = tbl_witness::<K, V>(bs, kv2);
            assert(bs2[a][c].0@ == kv2);
            assert(tbl_has(bs2, kv2));
        }
    }
    lemma_at_slot::<K, V>(bs2, i, j);
    assert forall|kv2: K::V| kv2 != p2.0@ && #[trigger] tbl_has(bs, kv2) implies tbl_get(bs2, kv2)
        == tbl_get(bs, kv2) by {
        let (a, c) = tbl_witness::<K, V>(bs, kv2);
        lemma_at_slot::<K, V>(bs, a, c);
        assert(!(a == i && c == j));
        assert(bs2[a][c] == bs[a][c]);
        lemma_at_slot::<K, V>(bs2, a, c);
    }
}

/// Removing slot `(i, j)` by swapping in the bucket's last pair and dropping
/// the tail: exactly that slot's key disappears, every other key keeps its
/// value, and placement is preserved.
pub proof fn lemma_remove_slot<K: MapKey, V>(bs: Seq<Seq<(K, V)>>, i: int, j: int)
    requires
        distinct_keys::<K, V>(bs),
        0 <= i < bs.len(),
        0 <= j < bs[i].len(),
    ensures
        ({
            let bs2 = bs.update(i, bs[i].update(j, bs[i].last()).drop_last());
            let kv = bs[i][j].0@;
            &&& distinct_keys::<K, V>(bs2)
            &&& placed::<K, V>(bs) ==> placed::<K, V>(bs2)
            &&& pair_count(bs2) + 1 == pair_count(bs)
            &&& forall|kv2: K::V|
                #![trigger tbl_has(bs2, kv2)]
                #![trigger tbl_has(bs, kv2)]
                tbl_has(bs2, kv2) <==> (tbl_has(bs, kv2) && kv2 != kv)
            &&& forall|kv2: K::V|
                #[trigger] tbl_has(bs2, kv2) ==> tbl_get(bs2, kv2) == tbl_get(bs, kv2)
        }),
{
    let m = bs[i].len() - 1;
    let b2 = bs[i].update(j, bs[i].last()).drop_last();
    let bs2 = bs.update(i, b2);
    let kv = bs[i][j].0@;
    assert(b2.len() == m);
    // where each surviving slot of bs2 came from in bs
    assert forall|a: int, c: int|
        0 <= a < bs2.len() && 0 <= c < bs2[a].len() implies (#[trigger] bs2[a][c]) == bs[a][(
    if a == i && c == j {
        m
    } else {
        c
    })] && 0 <= (if a == i && c == j {
        m
    } else {
        c
    }) < bs[a].len() by {}
    // distinctness: the slot map into bs is injective
    assert forall|i1: int, j1: int, i2: int, j2: int|
        0 <= i1 < bs2.len() && 0 <= j1 < bs2[i1].len() && 0 <= i2 < bs2.len() && 0 <= j2
            < bs2[i2].len() && (#[trigger] bs2[i1][j1]).0@ == (#[trigger] bs2[i2][j2]).0@ implies i1
        == i2 && j1 == j2 by {
        let c1: int = if i1 == i && j1 == j {
            m
        } else {
            j1
        };
        let c2: int = if i2 == i && j2 == j {
            m
        } else {
            j2
        };
        assert(bs[i1][c1].0@ == bs[i2][c2].0@);
        assert(i1 == i2 && c1 == c2);
    }
    if placed::<K, V>(bs) {
        assert forall|a: int, c: int|
            0 <= a < bs2.len() && 0 <= c < bs2[a].len() implies bucket_index(
            K::hash_of((#[trigger] bs2[a][c]).0@),
            bs2.len() as int,
        ) == a by {}
    }
    lemma_pair_count_update(bs, i, b2);
    assert forall|kv2: K::V|
        #![trigger tbl_has(bs2, kv2)]
        #![trigger tbl_has(bs, kv2)]
        tbl_has(bs2, kv2) <==> (tbl_has(bs, kv2) && kv2 != kv) by {
        if tbl_has(bs2, kv2) {
            let (a, c) = tbl_witness::<K, V>(bs2, kv2);
            let c0: int = if a == i && c == j {
                m
            } else {
                c
            };
            assert(bs[a][c0].0@ == kv2);
            assert(tbl_has(bs, kv2));
            if kv2 == kv {
                assert(bs[a][c0].0@ == bs[i][j].0@);
                assert(a == i && c0 == j);
                assert(false);
            }
        }
        if tbl_has(bs, kv2) && kv2 != kv {
            let (a, c) = tbl_witness::<K, V>(bs, kv2);
            assert(!(a == i && c == j));
            if a == i && c == m {
                if j == m {
                    assert(false);
                } else {
                    assert(bs2[i][j] == bs[i][m]);
                    assert(tbl_has(bs2, kv2));
                }
            } else {
                assert(bs2[a][c] == bs[a][c]);
                assert(tbl_has(bs2, kv2));
            }
        }
    }
    assert forall|kv2: K::V| #[trigger] tbl_has(bs2, kv2) implies tbl_get(bs2, kv2) == tbl_get(
        bs,
        kv2,
    ) by {
        let (a, c) = tbl_witness::<K, V>(bs2, kv2);
        lemma_at_slot::<K, V>(bs2, a, c);
        let c0: int = if a == i && c == j {
            m
        } else {
            c
        };
        assert(bs2[a][c] == bs[a][c0]);
        lemma_at_slot::<K, V>(bs, a, c0);
    }
}

/// Scans a bucket for a key with the same abstract value as the query.
pub(crate) fn find_in_bucket<K: MapKey, Q: KeyQuery<K>, V>(b: &Vec<(K, V)>, key: &Q) -> (r:
    Option<usize>)
    ensures
        match r {
            Some(j) => j < b@.len() && b@[j as int].0@ == key@,
            None => forall|j: int| 0 <= j < b@.len() ==> (#[trigger] b@[j]).0@ != key@,
        },
{
    let mut j: usize = 0;
    while j < b.len()
        invariant
            j <= b@.len(),
            forall|t: int| 0 <= t < j ==> (#[trigger] b@[t]).0@ != key@,
        decreases b@.len() - j,
    {
        if key.query_eq(&b[j].0) {
            return Some(j);
        }
        j += 1;
    }
    None
}

impl<K: MapKey, V> View for HashMap<K, V> {
    type V = Map<K::V, V>;

    closed spec fn view(&self) -> Map<K::V, V> {
        tbl_map(deep(self.buckets@))
    }
}

impl<K: MapKey, V> HashMap<K, V> {
    /// Internal consistency: pairs are in the buckets their hashes select,
    /// keys are unique, and the counter matches the number of stored pairs.
    pub closed spec fn wf(self) -> bool {
        &&& placed::<K, V>(deep(self.buckets@))
        &&& distinct_keys::<K, V>(deep(self.buckets@))
        &&& self.items as nat == pair_count(deep(self.buckets@))
    }

    /// The current number of buckets (zero until the first insertion).
    pub closed spec fn spec_bucket_count(self) -> nat {
        self.buckets@.len()
    }

    /// Creates an empty table; no buckets are allocated yet.
    pub fn new() -> (m: Self)
        ensures
            m.wf(),
            m@ == Map::<K::V, V>::empty(),
            m.spec_bucket_count() == 0,
    {
        let m = HashMap { buckets: Vec::<Vec<(K, V)>>::new(), items: 0 };
        proof {
            let bs = deep(m.buckets@);
            assert(bs.len() == 0);
            assert forall|kv: K::V| !(#[trigger] tbl_has(bs, kv)) by {
                if tbl_has(bs, kv) {
                    let (i, j) = choose|i: int, j: int|
                        #![trigger bs[i][j]]
                        0 <= i < bs.len() && 0 <= j < bs[i].len() && bs[i][j].0@ == kv;
                    assert(false);
                }
            }
            assert(m@ =~= Map::<K::V, V>::empty());
        }
        m
    }

    /// The number of live items.
    pub fn len(&self) -> (n: usize)
        requires
            self.wf(),
        ensures
            n as nat == self@.len(),
    {
        proof {
            lemma_dom_card::<K, V>(deep(self.buckets@));
            assert(self@.dom() =~= tbl_dom::<K, V>(deep(self.buckets@)));
        }
        self.items
    }

    /// Whether the table holds no items.
    pub fn is_empty(&self) -> (r: bool)
        requires
            self.wf(),
        ensures
            r == (self@.len() == 0),
    {
        proof {
            lemma_dom_card::<K, V>(deep(self.buckets@));
            assert(self@.dom() =~= tbl_dom::<K, V>(deep(self.buckets@)));
        }
        self.items == 0
    }

    /// Looks up the value stored for a key whose abstract value equals the
    /// query's; the query may be any hash-and-equality-compatible borrowed
    /// form of the key type (a string slice against owned-string keys). On an
    /// empty table the lookup short-circuits to absence.
    pub fn get_by<'a, Q: KeyQuery<K>>(&'a self, key: &Q) -> (r: Option<&'a V>)
        requires
            self.wf(),
        ensures
            match r {
                Some(v) => self@.contains_key(key@) && *v == self@[key@],
                None => !self@.contains_key(key@),
            },
    {
        let ghost bs = deep(self.buckets@);
        if self.buckets.len() == 0 {
            proof {
                if tbl_has(bs, key@) {
                    let (i, j) = choose|i: int, j: int|
                        #![trigger bs[i][j]]
                        0 <= i < bs.len() && 0 <= j < bs[i].len() && bs[i][j].0@ == key@;
                    assert(false);
                }
            }
            return None;
        }
        let n = self.buckets.len();
        let h = key.query_hash();
        let idx = (h % (n as u64)) as usize;
        assert(idx as int == bucket_index(K::hash_of(key@), bs.len() as int));
        let bucket = &self.buckets[idx];
        assert(bucket@ == bs[idx as int]);
        match find_in_bucket(bucket, key) {
            Some(j) => {
                proof {
                    lemma_at_slot::<K, V>(bs, idx as int, j as int);
                }
                Some(&bucket[j].1)
            },
            None => {
                proof {
                    if tbl_has(bs, key@) {
                        let (i, j) = choose|i: int, j: int|
                            #![trigger bs[i][j]]
                            0 <= i < bs.len() && 0 <= j < bs[i].len() && bs[i][j].0@ == key@;
                        assert(bucket_index(K::hash_of(bs[i][j].0@), bs.len() as int) == i);
                        assert(false);
                    }
                }
                None
            },
        }
    }

    /// Looks up the value stored for a key equal to `key`; on an empty table
    /// the lookup short-circuits to absence.
    pub fn get<'a>(&'a self, key: &K) -> (r: Option<&'a V>)
        requires
            self.wf(),
        ensures
            match r {
                Some(v) => self@.contains_key(key@) && *v == self@[key@],
                None => !self@.contains_key(key@),
            },
    {
        self.get_by(key)
    }

    /// A well-formed table's contents form a finite map; callers can use
    /// this to reason about how `insert` and `remove` change `len()`.
    pub proof fn lemma_view_finite(&self)
        requires
            self.wf(),
        ensures
            self@.dom().finite(),
    {
        lemma_dom_card::<K, V>(deep(self.buckets@));
        assert(self@.dom() =~= tbl_dom::<K, V>(deep(self.buckets@)));
    }

    /// The current number of buckets.
    pub fn bucket_count(&self) -> (n: usize)
        ensures
            n as nat == self.spec_bucket_count(),
    {
        self.buckets.len()
    }

    /// Replaces the bucket array by one of four buckets (from zero) or twice
    /// as many, redistributing every pair under the new modulus. The mapping
    /// from keys to values is unchanged.
    pub(crate) fn resize(&mut self)
        requires
            old(self).wf(),
            old(self).spec_bucket_count() <= usize::MAX as nat / 2,
        ensures
            final(self).wf(),
            final(self)@ == old(self)@,
            final(self).items == old(self).items,
            final(self).spec_bucket_count() == if old(self).spec_bucket_count() == 0 {
                4nat
            } else {
                old(self).spec_bucket_count() * 2
            },
    {
        let ghost m0 = old(self)@;
        let old_n = self.buckets.len();
        let new_size: usize = if old_n == 0 {
            4
        } else {
            old_n * 2
        };
        let mut new_buckets: Vec<Vec<(K, V)>> = Vec::with_capacity(new_size);
        let mut t: usize = 0;
        while t < new_size
            invariant
                t <= new_size,
                new_buckets@.len() == t,
                forall|q: int| 0 <= q < t ==> (#[trigger] new_buckets@[q])@.len() == 0,
            decreases new_size - t,
        {
            new_buckets.push(Vec::with_capacity(new_size));
            t += 1;
        }
        proof {
            let nb = deep(new_buckets@);
            let cur = deep(self.buckets@);
            assert forall|kv: K::V| !(#[trigger] tbl_has(nb, kv)) by {
                if tbl_has(nb, kv) {
                    let (a, c) = tbl_witness::<K, V>(nb, kv);
                    assert(false);
                }
            }
            assert(placed::<K, V>(nb)) by {
                assert forall|a: int, c: int|
                    0 <= a < nb.len() && 0 <= c < nb[a].len() implies bucket_index(
                    K::hash_of((#[trigger] nb[a][c]).0@),
                    nb.len() as int,
                ) == a by {
                    assert(nb[a].len() == 0);
                }
            }
            assert(distinct_keys::<K, V>(nb)) by {
                assert forall|i1: int, j1: int, i2: int, j2: int|
                    0 <= i1 < nb.len() && 0 <= j1 < nb[i1].len() && 0 <= i2 < nb.len() && 0 <= j2
                        < nb[i2].len() && (#[trigger] nb[i1][j1]).0@ == (#[trigger] nb[i2][j2]).0@
                    implies i1 == i2 && j1 == j2 by {
                    assert(nb[i1].len() == 0);
                }
            }
            lemma_pair_count_empty::<K, V>(nb);
            assert forall|kv: K::V| #[trigger] tbl_has(cur, kv) implies m0.contains_key(kv)
                && tbl_get(cur, kv) == m0[kv] by {}
        }
        let mut i: usize = 0;
        while i < self.buckets.len()
            invariant
                i <= self.buckets@.len(),
                self.items == old(self).items,
                self.buckets@.len() == old(self).buckets@.len(),
                new_buckets@.len() == new_size,
                new_size > 0,
                forall|t2: int| 0 <= t2 < i ==> (#[trigger] deep(self.buckets@)[t2]).len() == 0,
                placed::<K, V>(deep(new_buckets@)),
                distinct_keys::<K, V>(deep(new_buckets@)),
                distinct_keys::<K, V>(deep(self.buckets@)),
                forall|kv: K::V| #[trigger]
                    tbl_has(deep(new_buckets@), kv) ==> !tbl_has(deep(self.buckets@), kv),
                forall|kv: K::V|
                    #![trigger tbl_has(deep(new_buckets@), kv)]
                    #![trigger tbl_has(deep(self.buckets@), kv)]
                    #![trigger m0.contains_key(kv)]
                    (tbl_has(deep(new_buckets@), kv) || tbl_has(deep(self.buckets@), kv))
                        <==> m0.contains_key(kv),
                forall|kv: K::V| #[trigger]
                    tbl_has(deep(new_buckets@), kv) ==> tbl_get(deep(new_buckets@), kv) == m0[kv],
                forall|kv: K::V| #[trigger]
                    tbl_has(deep(self.buckets@), kv) ==> tbl_get(deep(self.buckets@), kv)
                        == m0[kv],
                pair_count(deep(new_buckets@)) + pair_count(deep(self.buckets@))
                    == old(self).items,
            decreases self.buckets@.len() - i,
        {
            while self.buckets[i].len() > 0
                invariant
                    i < self.buckets@.len(),
                    self.items == old(self).items,
                    self.buckets@.len() == old(self).buckets@.len(),
                    new_buckets@.len() == new_size,
                    new_size > 0,
                    forall|t2: int| 0 <= t2 < i ==> (#[trigger] deep(self.buckets@)[t2]).len()
                        == 0,
                    placed::<K, V>(deep(new_buckets@)),
                    distinct_keys::<K, V>(deep(new_buckets@)),
                    distinct_keys::<K, V>(deep(self.buckets@)),
                    forall|kv: K::V| #[trigger]
                        tbl_has(deep(new_buckets@), kv) ==> !tbl_has(deep(self.buckets@), kv),
                    forall|kv: K::V|
                        #![trigger tbl_has(deep(new_buckets@), kv)]
                        #![trigger tbl_has(deep(self.buckets@), kv)]
                        #![trigger m0.contains_key(kv)]
                        (tbl_has(deep(new_buckets@), kv) || tbl_has(deep(self.buckets@), kv))
                            <==> m0.contains_key(kv),
                    forall|kv: K::V| #[trigger]
                        tbl_has(deep(new_buckets@), kv) ==> tbl_get(deep(new_buckets@), kv)
                            == m0[kv],
                    forall|kv: K::V| #[trigger]
                        tbl_has(deep(self.buckets@), kv) ==> tbl_get(deep(self.buckets@), kv)
                            == m0[kv],
                    pair_count(deep(new_buckets@)) + pair_count(deep(self.buckets@))
                        == old(self).items,
                decreases self.buckets@[i as int]@.len(),
            {
                let ghost cur = deep(self.buckets@);
                let ghost nb = deep(new_buckets@);
                let ghost jj = cur[i as int].len() - 1;
                let b = &mut self.buckets[i];
                let popped = b.pop();
                let p = match popped {
                    Some(p) => p,
                    None => {
                        proof {
                            assert(false);
                        }
                        unreached()
                    },
                };
                proof {
                    lemma_at_slot::<K, V>(cur, i as int, jj);
                    assert(cur[i as int].update(jj, cur[i as int].last()).drop_last()
                        =~= cur[i as int].drop_last());
                    lemma_remove_slot::<K, V>(cur, i as int, jj);
                    assert(deep(self.buckets@) =~= cur.update(
                        i as int,
                        cur[i as int].drop_last(),
                    ));
                }
                let ghost cur2 = deep(self.buckets@);
                let ghost kv = p.0@;
                let h = p.0.hash_code();
                let idx = (h % (new_size as u64)) as usize;
                proof {
                    assert(idx as int == bucket_index(K::hash_of(kv), nb.len() as int));
                    assert(!tbl_has(nb, kv));
                    lemma_push_slot::<K, V>(nb, idx as int, p);
                }
                let nb_ref = &mut new_buckets[idx];
                nb_ref.push(p);
                proof {
                    assert(deep(new_buckets@) =~= nb.update(idx as int, nb[idx as int].push(p)));
                    let nb2 = deep(new_buckets@);
                    assert forall|kv2: K::V| #[trigger] tbl_has(nb2, kv2) implies !tbl_has(
                        cur2,
                        kv2,
                    ) by {
                        if kv2 == kv {
                            assert(!tbl_has(cur2, kv2));
                        } else {
                            assert(tbl_has(nb, kv2));
                        }
                    }
                    assert forall|kv2: K::V|
                        #![trigger tbl_has(nb2, kv2)]
                        #![trigger tbl_has(cur2, kv2)]
                        #![trigger m0.contains_key(kv2)]
                        (tbl_has(nb2, kv2) || tbl_has(cur2, kv2)) <==> m0.contains_key(
                        kv2,
                    ) by {
                        if kv2 == kv {
                            assert(tbl_has(cur, kv));
                            assert(m0.contains_key(kv));
                            assert(tbl_has(nb2, kv));
                        }
                    }
                    assert forall|kv2: K::V| #[trigger] tbl_has(nb2, kv2) implies tbl_get(nb2, kv2)
                        == m0[kv2] by {
                        if kv2 == kv {
                            assert(tbl_get(cur, kv) == p.1);
                            assert(tbl_get(nb2, kv) == p.1);
                        } else {
                            assert(tbl_has(nb, kv2));
                            assert(tbl_get(nb2, kv2) == tbl_get(nb, kv2));
                        }
                    }
                    assert(forall|t2: int|
                        0 <= t2 < i ==> (#[trigger] cur2[t2]).len() == 0);
                }
            }
            i += 1;
        }
        proof {
            let cur = deep(self.buckets@);
            assert forall|kv: K::V| !(#[trigger] tbl_has(cur, kv)) by {
                if tbl_has(cur, kv) {
                    let (a, c) = tbl_witness::<K, V>(cur, kv);
                    assert(cur[a].len() == 0);
                }
            }
            lemma_pair_count_empty::<K, V>(cur);
        }
        self.buckets = new_buckets;
        proof {
            let nb = deep(self.buckets@);
            assert forall|kv: K::V| #[trigger]
                self@.contains_key(kv) <==> m0.contains_key(kv) by {}
            assert(self@ =~= m0) by {
                assert forall|kv: K::V| #[trigger] m0.contains_key(kv) implies self@.contains_key(
                    kv,
                ) && self@[kv] == m0[kv] by {
                    assert(tbl_has(nb, kv));
                    assert(tbl_get(nb, kv) == m0[kv]);
                }
            }
        }
    }

    /// Inserts a key/value pair. When a key with the same abstract value is
    /// already present, its value is replaced and the previous value is
    /// returned; otherwise the pair is added. The table grows (doubling its
    /// buckets, or allocating the first four) before the insertion whenever it
    /// has no buckets or the item count exceeds three quarters of the bucket
    /// count.
    pub fn insert(&mut self, key: K, value: V) -> (prev: Option<V>)
        requires
            old(self).wf(),
            old(self)@.len() < usize::MAX as nat / 4,
        ensures
            final(self).wf(),
            final(self)@ == old(self)@.insert(key@, value),
            prev == if old(self)@.contains_key(key@) {
                Some(old(self)@[key@])
            } else {
                None::<V>
            },
            final(self).spec_bucket_count() == if old(self).spec_bucket_count() == 0 {
                4nat
            } else if old(self)@.len() > 3 * old(self).spec_bucket_count() / 4 {
                old(self).spec_bucket_count() * 2
            } else {
                old(self).spec_bucket_count()
            },
    {
        let ghost kv = key@;
        proof {
            lemma_dom_card::<K, V>(deep(self.buckets@));
            assert(self@.dom() =~= tbl_dom::<K, V>(deep(self.buckets@)));
        }
        if self.buckets.len() == 0 || (self.items as u128) > 3u128 * (self.buckets.len() as u128)
            / 4u128 {
            self.resize();
        }
        let n = self.buckets.len();
        let h = key.hash_code();
        let idx = (h % (n as u64)) as usize;
        let ghost bs = deep(self.buckets@);
        proof {
            assert(idx as int == bucket_index(K::hash_of(kv), bs.len() as int));
            assert(self.buckets@[idx as int]@ == bs[idx as int]);
        }
        match find_in_bucket(&self.buckets[idx], &key) {
            Some(j) => {
                proof {
                    lemma_at_slot::<K, V>(bs, idx as int, j as int);
                    let p2 = (bs[idx as int][j as int].0, value);
                    lemma_set_value::<K, V>(bs, idx as int, j as int, p2);
                }
                let b = &mut self.buckets[idx];
                let slot = &mut b[j];
                let mut tmp = value;
                core::mem::swap(&mut slot.1, &mut tmp);
                proof {
                    let bs2 = deep(self.buckets@);
                    assert(bs2 =~= bs.update(
                        idx as int,
                        bs[idx as int].update(j as int, (bs[idx as int][j as int].0, value)),
                    ));
                    assert(self@ =~= old(self)@.insert(kv, value)) by {
                        assert forall|kv2: K::V| #[trigger]
                            tbl_has(bs2, kv2) <==> old(self)@.insert(kv, value).contains_key(
                            kv2,
                        ) by {}
                        assert forall|kv2: K::V| #[trigger] tbl_has(bs2, kv2) implies tbl_get(
                            bs2,
                            kv2,
                        ) == old(self)@.insert(kv, value)[kv2] by {
                            if kv2 != kv {
                                assert(tbl_get(bs2, kv2) == tbl_get(bs, kv2));
                            }
                        }
                    }
                }
                Some(tmp)
            },
            None => {
                proof {
                    if tbl_has(bs, kv) {
                        let (a, c) = tbl_witness::<K, V>(bs, kv);
                        assert(bucket_index(K::hash_of(bs[a][c].0@), bs.len() as int) == a);
                        assert(false);
                    }
                    lemma_push_slot::<K, V>(bs, idx as int, (key, value));
                }
                let b = &mut self.buckets[idx];
                b.push((key, value));
                self.items = self.items + 1;
                proof {
                    let bs2 = deep(self.buckets@);
                    assert(bs2 =~= bs.update(idx as int, bs[idx as int].push((key, value))));
                    assert(self@ =~= old(self)@.insert(kv, value)) by {
                        assert forall|kv2: K::V| #[trigger]
                            tbl_has(bs2, kv2) <==> old(self)@.insert(kv, value).contains_key(
                            kv2,
                        ) by {}
                        assert forall|kv2: K::V| #[trigger] tbl_has(bs2, kv2) implies tbl_get(
                            bs2,
                            kv2,
                        ) == old(self)@.insert(kv, value)[kv2] by {
                            if kv2 != kv {
                                assert(tbl_get(bs2, kv2) == tbl_get(bs, kv2));
                            }
                        }
                    }
                }
                None
            },
        }
    }

    /// Removes the pair whose key's abstract value equals the query's,
    /// returning its value, or reports absence; the query may be any
    /// compatible borrowed form of the key type. The matching pair is swapped
    /// with its bucket's last pair and the tail dropped, so in-bucket order is
    /// not preserved.
    pub fn remove_by<Q: KeyQuery<K>>(&mut self, key: &Q) -> (prev: Option<V>)
        requires
            old(self).wf(),
        ensures
            final(self).wf(),
            final(self)@ == old(self)@.remove(key@),
            prev == if old(self)@.contains_key(key@) {
                Some(old(self)@[key@])
            } else {
                None::<V>
            },
            final(self).spec_bucket_count() == old(self).spec_bucket_count(),
    {
        let ghost kv = key@;
        let ghost bs = deep(self.buckets@);
        if self.buckets.len() == 0 {
            proof {
                if tbl_has(bs, kv) {
                    let (a, c) = tbl_witness::<K, V>(bs, kv);
                    assert(false);
                }
                assert(old(self)@.remove(kv) =~= old(self)@);
            }
            return None;
        }
        let n = self.buckets.len();
        let h = key.query_hash();
        let idx = (h % (n as u64)) as usize;
        proof {
            assert(idx as int == bucket_index(K::hash_of(kv), bs.len() as int));
            assert(self.buckets@[idx as int]@ == bs[idx as int]);
        }
        match find_in_bucket(&self.buckets[idx], key) {
            Some(j) => {
                proof {
                    lemma_at_slot::<K, V>(bs, idx as int, j as int);
                    lemma_remove_slot::<K, V>(bs, idx as int, j as int);
                    lemma_dom_card::<K, V>(bs);
                    assert(tbl_dom::<K, V>(bs).contains(kv));
                }
                let b = &mut self.buckets[idx];
                let p = b.swap_remove(j);
                self.items = self.items - 1;
                proof {
                    let bs2 = deep(self.buckets@);
                    assert(bs2 =~= bs.update(
                        idx as int,
                        bs[idx as int].update(j as int, bs[idx as int].last()).drop_last(),
                    ));
                    assert(self@ =~= old(self)@.remove(kv)) by {
                        assert forall|kv2: K::V| #[trigger]
                            tbl_has(bs2, kv2) <==> old(self)@.remove(kv).contains_key(kv2) by {}
                        assert forall|kv2: K::V| #[trigger] tbl_has(bs2, kv2) implies tbl_get(
                            bs2,
                            kv2,
                        ) == old(self)@.remove(kv)[kv2] by {}
                    }
                }
                Some(p.1)
            },
            None => {
                proof {
                    if tbl_has(bs, kv) {
                        let (a, c) = tbl_witness::<K, V>(bs, kv);
                        assert(bucket_index(K::hash_of(bs[a][c].0@), bs.len() as int) == a);
                        assert(false);
                    }
                    assert(old(self)@.remove(kv) =~= old(self)@);
                }
                None
            },
        }
    }

    /// Removes the pair whose key equals `key`, returning its value, or
    /// reports absence.
    pub fn remove(&mut self, key: &K) -> (prev: Option<V>)
        requires
            old(self).wf(),
        ensures
            final(self).wf(),
            final(self)@ == old(self)@.remove(key@),
            prev == if old(self)@.contains_key(key@) {
                Some(old(self)@[key@])
            } else {
                None::<V>
            },
            final(self).spec_bucket_count() == old(self).spec_bucket_count(),
    {
        self.remove_by(key)
    }

    /// Looks up a key by any compatible borrowed query form and returns
    /// exclusive access to its value; the caller may write through the
    /// returned reference, and the table afterwards maps the key to whatever
    /// was written.
    pub fn get_mut_by<'a, Q: KeyQuery<K>>(&'a mut self, key: &Q) -> (r: Option<&'a mut V>)
        requires
            old(self).wf(),
        ensures
            final(self).wf(),
            final(self).spec_bucket_count() == old(self).spec_bucket_count(),
            match r {
                Some(v) => old(self)@.contains_key(key@) && *v == old(self)@[key@] && final(self)@ == old(self)@.insert(key@, *final(v)),
                None => !old(self)@.contains_key(key@) && final(self)@ == old(self)@,
            },
    {
        let ghost kv = key@;
        let ghost bs = deep(self.buckets@);
        if self.buckets.len() == 0 {
            proof {
                if tbl_has(bs, kv) {
                    let (a, c) = tbl_witness::<K, V>(bs, kv);
                    assert(false);
                }
            }
            return None;
        }
        let n = self.buckets.len();
        let h = key.query_hash();
        let idx = (h % (n as u64)) as usize;
        proof {
            assert(idx as int == bucket_index(K::hash_of(kv), bs.len() as int));
            assert(self.buckets@[idx as int]@ == bs[idx as int]);
        }
        match find_in_bucket(&self.buckets[idx], key) {
            Some(j) => {
                proof {
                    lemma_at_slot::<K, V>(bs, idx as int, j as int);
                }
                let b = &mut self.buckets[idx];
                let slot = &mut b[j];
                let v = &mut slot.1;
                proof {
                    let p2 = (bs[idx as int][j as int].0, *final(v));
                    lemma_set_value::<K, V>(bs, idx as int, j as int, p2);
                    let bs2 = deep(after_borrow(self).buckets@);
                    assert(bs2 =~= bs.update(idx as int, bs[idx as int].update(j as int, p2)));
                    assert(after_borrow(self)@ =~= old(self)@.insert(kv, *final(v))) by {
                        assert forall|kv2: K::V| #[trigger]
                            tbl_has(bs2, kv2) <==> old(self)@.insert(kv, *final(v)).contains_key(
                            kv2,
                        ) by {}
                        assert forall|kv2: K::V| #[trigger] tbl_has(bs2, kv2) implies tbl_get(
                            bs2,
                            kv2,
                        ) == old(self)@.insert(kv, *final(v))[kv2] by {
                            if kv2 != kv {
                                assert(tbl_get(bs2, kv2) == tbl_get(bs, kv2));
                            }
                        }
                    }
                }
                Some(v)
            },
            None => {
                proof {
                    if tbl_has(bs, kv) {
                        let (a, c) = tbl_witness::<K, V>(bs, kv);
                        assert(bucket_index(K::hash_of(bs[a][c].0@), bs.len() as int) == a);
                        assert(false);
                    }
                }
                None
            },
        }
    }

    /// Looks up a key and returns exclusive access to its value; the caller
    /// may write through the returned reference, and the table afterwards
    /// maps the key to whatever was written.
    pub fn get_mut<'a>(&'a mut self, key: &K) -> (r: Option<&'a mut V>)
        requires
            old(self).wf(),
        ensures
            final(self).wf(),
            final(self).spec_bucket_count() == old(self).spec_bucket_count(),
            match r {
                Some(v) => old(self)@.contains_key(key@) && *v == old(self)@[key@] && final(self)@
                    == old(self)@.insert(key@, *final(v)),
                None => !old(self)@.contains_key(key@) && final(self)@ == old(self)@,
            },
    {
        self.get_mut_by(key)
    }

    /// Whether a key whose abstract value equals the query's is present; the
    /// query may be any compatible borrowed form of the key type.
    pub fn contains_key_by<Q: KeyQuery<K>>(&self, key: &Q) -> (r: bool)
        requires
            self.wf(),
        ensures
            r == self@.contains_key(key@),
    {
        match self.get_by(key) {
            Some(_) => true,
            None => false,
        }
    }

    /// Whether a key equal to `key` is present.
    pub fn contains_key(&self, key: &K) -> (r: bool)
        requires
            self.wf(),
        ensures
            r == self@.contains_key(key@),
    {
        self.contains_key_by(key)
    }
}

} // verus!
