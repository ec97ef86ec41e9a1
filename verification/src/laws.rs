use vstd::prelude::*;

verus! {

/// Round-trip: after `insert(k, v)` the table (whose contents `insert`'s
/// contract pins to `m.insert(k, v)`) maps `k` to `v`, and `get`'s contract
/// then returns exactly `v`; the pair survives insertions of other keys and
/// removals of other keys, until `k` itself is overwritten or removed.
pub proof fn law_round_trip<KV, V>(m: Map<KV, V>, k: KV, v: V, k2: KV, v2: V)
    ensures
        m.insert(k, v).contains_key(k),
        m.insert(k, v)[k] == v,
        k2 != k ==> m.insert(k, v).insert(k2, v2).contains_key(k) && m.insert(k, v).insert(
            k2,
            v2,
        )[k] == v,
        k2 != k ==> m.insert(k, v).remove(k2).contains_key(k) && m.insert(k, v).remove(k2)[k] == v,
{
}

/// Overwrite: inserting an already-present key replaces its value and leaves
/// the item count unchanged (`insert`'s contract returns the previous value).
pub proof fn law_overwrite<KV, V>(m: Map<KV, V>, k: KV, v: V)
    requires
        m.dom().finite(),
        m.contains_key(k),
    ensures
        m.insert(k, v).len() == m.len(),
        m.insert(k, v)[k] == v,
{
    assert(m.insert(k, v).dom() =~= m.dom().insert(k));
    assert(m.dom().insert(k) =~= m.dom());
}

/// Removal: removing a present key shrinks the count by exactly one and makes
/// the key absent; removing an absent key changes nothing.
pub proof fn law_removal<KV, V>(m: Map<KV, V>, k: KV)
    requires
        m.dom().finite(),
    ensures
        m.contains_key(k) ==> m.remove(k).len() + 1 == m.len(),
        !m.remove(k).contains_key(k),
        !m.contains_key(k) ==> m.remove(k) == m && m.remove(k).len() == m.len(),
{
    assert(m.remove(k).dom() =~= m.dom().remove(k));
    if !m.contains_key(k) {
        assert(m.remove(k) =~= m);
    }
}

/// Folding a sequence of insertions into a table, front to back.
pub open spec fn insert_all<KV, V>(m: Map<KV, V>, ps: Seq<(KV, V)>) -> Map<KV, V>
    decreases ps.len(),
{
    if ps.len() == 0 {
        m
    } else {
        insert_all(m, ps.drop_last()).insert(ps.last().0, ps.last().1)
    }
}

/// Growth correctness: after any number of insertions with pairwise-distinct
/// keys (resizes included: `insert`'s contract is the same whether or not the
/// bucket array grew), every inserted key is present with its inserted value.
pub proof fn law_growth_preserves_pairs<KV, V>(m: Map<KV, V>, ps: Seq<(KV, V)>, t: int)
    requires
        0 <= t < ps.len(),
        forall|x: int, y: int|
            0 <= x < y < ps.len() ==> (#[trigger] ps[x]).0 != (#[trigger] ps[y]).0,
    ensures
        insert_all(m, ps).contains_key(ps[t].0),
        insert_all(m, ps)[ps[t].0] == ps[t].1,
    decreases ps.len(),
{
    if t == ps.len() - 1 {
    } else {
        let ps2 = ps.drop_last();
        law_growth_preserves_pairs(m, ps2, t);
        assert(ps2[t] == ps[t]);
        assert(ps[t].0 != ps.last().0);
    }
}

/// Mutate-then-default: on a present key, applying a mutation and then asking
/// for a default applies the mutation exactly once and never the default.
/// `and_modify`'s contract moves an occupied entry's table to
/// `m.insert(k, v2)` with `v2` the mutator's one result and keeps the entry
/// occupied; `or_insert`'s contract leaves an occupied entry's table
/// unchanged, whatever default is offered.
pub proof fn law_modify_then_default<KV, V>(m: Map<KV, V>, k: KV, v2: V, default: V)
    requires
        m.dom().finite(),
        m.contains_key(k),
    ensures
        m.insert(k, v2).contains_key(k),
        m.insert(k, v2)[k] == v2,
        m.insert(k, v2).len() == m.len(),
{
    law_overwrite(m, k, v2);
}

} // verus!
