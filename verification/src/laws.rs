//! General laws of the table, stated over the `Map` view that the
//! operations' contracts use and proved once and for all. Each law composes
//! the postconditions of `insert`, `get`, `get_mut` or `remove`: the view an
//! operation leaves behind is given by those postconditions, and these
//! lemmas say what a later operation then observes.

use vstd::prelude::*;

use crate::hash_key::HashKey;
use crate::hash_table::map_of_pairs;

verus! {

/// After an insert of `(k, v)` — which leaves the view `pre.insert(...)` —
/// a lookup of `k` (or of any key with the same model) finds `v`. The same
/// law covers a write through `get_mut`, whose postcondition leaves the view
/// `pre.insert(k.model(), w)` for the written value `w`.
pub proof fn lemma_get_after_insert<K: HashKey, V>(pre: Map<K::M, V>, k: K, v: V)
    ensures
        pre.insert(k.model(), v).contains_key(k.model()),
        pre.insert(k.model(), v)[k.model()] == v,
{
}

/// Inserting `(k, v2)` after `(k, v1)` updates in place: the second insert
/// leaves the entry count unchanged, and a lookup of `k` then finds `v2`.
pub proof fn lemma_insert_twice<K: HashKey, V>(pre: Map<K::M, V>, k: K, v1: V, v2: V)
    requires
        pre.dom().finite(),
    ensures
        pre.insert(k.model(), v1).insert(k.model(), v2)[k.model()] == v2,
        pre.insert(k.model(), v1).insert(k.model(), v2).dom().len() == pre.insert(
            k.model(),
            v1,
        ).dom().len(),
{
    assert(pre.insert(k.model(), v1).insert(k.model(), v2).dom() =~= pre.insert(
        k.model(),
        v1,
    ).dom());
}

/// Removing a present key makes later lookups of it report absence and
/// drops the entry count by exactly one; `remove`'s own postcondition says
/// the prior value is what it returns.
pub proof fn lemma_remove_present<K: HashKey, V>(pre: Map<K::M, V>, k: K)
    requires
        pre.dom().finite(),
        pre.contains_key(k.model()),
    ensures
        !pre.remove(k.model()).contains_key(k.model()),
        pre.remove(k.model()).dom().len() == pre.dom().len() - 1,
{
}

/// Removing an absent key leaves the view unchanged, so the entry count and
/// every later lookup are unchanged too.
pub proof fn lemma_remove_absent<K: HashKey, V>(pre: Map<K::M, V>, k: K)
    requires
        !pre.contains_key(k.model()),
    ensures
        pre.remove(k.model()) == pre,
{
    assert(pre.remove(k.model()) =~= pre);
}

/// Re-inserting a key after its removal succeeds: the lookup finds the new
/// value again and the entry count grows back by one.
pub proof fn lemma_reinsert_after_remove<K: HashKey, V>(pre: Map<K::M, V>, k: K, v: V)
    requires
        pre.dom().finite(),
    ensures
        pre.remove(k.model()).insert(k.model(), v)[k.model()] == v,
        pre.remove(k.model()).insert(k.model(), v).dom().len() == pre.remove(
            k.model(),
        ).dom().len() + 1,
{
    let mid = pre.remove(k.model());
    assert(mid.insert(k.model(), v).dom() =~= mid.dom().insert(k.model()));
}

/// The keys of a table built from a pair sequence are exactly the distinct
/// key models of the sequence: together with `len`'s postcondition, the
/// entry count equals the number of distinct keys inserted.
pub proof fn lemma_from_distinct_keys<K: HashKey, V>(s: Seq<(K, V)>)
    ensures
        map_of_pairs(s).dom() =~= Set::new(
            |m: K::M| exists|i: int| 0 <= i < s.len() && (#[trigger] s[i]).0.model() == m,
        ),
    decreases s.len(),
{
    let keys = Set::new(
        |m: K::M| exists|i: int| 0 <= i < s.len() && (#[trigger] s[i]).0.model() == m,
    );
    if s.len() == 0 {
        assert forall|m: K::M| !keys.contains(m) by {}
    } else {
        let t = s.drop_last();
        lemma_from_distinct_keys(t);
        let tkeys = Set::new(
            |m: K::M| exists|i: int| 0 <= i < t.len() && (#[trigger] t[i]).0.model() == m,
        );
        assert forall|m: K::M| #[trigger] keys.contains(m) implies tkeys.contains(m) || m == s.last().0.model() by {
            let i = choose|i: int| 0 <= i < s.len() && (#[trigger] s[i]).0.model() == m;
            if i < s.len() - 1 {
                assert(t[i] == s[i]);
            }
        }
        assert forall|m: K::M| #[trigger] tkeys.contains(m) implies keys.contains(m) by {
            let i = choose|i: int| 0 <= i < t.len() && (#[trigger] t[i]).0.model() == m;
            assert(s[i] == t[i]);
        }
        assert(s.last() == s[s.len() - 1]);
        assert(keys.contains(s.last().0.model()));
        assert(map_of_pairs(s).dom() =~= tkeys.insert(s.last().0.model()));
        assert(tkeys.insert(s.last().0.model()) =~= keys);
    }
}

} // verus!
