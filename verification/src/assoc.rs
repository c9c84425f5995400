//! Lists of entries that give something for each of their keys.

use crate::model::ModelKey;
use vstd::prelude::*;

verus! {

/// The views of the keys of `entries`, each with the view of what the
/// entry gives for the key.
pub open spec fn entry_views<K: ModelKey, P: View>(entries: Seq<(K, P)>) -> Seq<(K::V, P::V)> {
    Seq::new(entries.len(), |i: int| (entries[i].0@, entries[i].1@))
}

/// The views of `keys`, in their order.
pub open spec fn key_views<K: ModelKey>(keys: Seq<K>) -> Seq<K::V> {
    Seq::new(keys.len(), |i: int| keys[i]@)
}

/// The keys of `entries`, in their order.
pub open spec fn spec_keys<V, P>(entries: Seq<(V, P)>) -> Seq<V> {
    Seq::new(entries.len(), |i: int| entries[i].0)
}

/// The place of the first entry for the key `k`, or the number of entries
/// where there is none.
pub open spec fn spec_find<V, P>(entries: Seq<(V, P)>, k: V) -> int
    decreases entries.len(),
{
    if entries.len() == 0 {
        0
    } else if entries[0].0 == k {
        0
    } else {
        1 + spec_find(entries.skip(1), k)
    }
}

/// The entries with `f` for the key `k`, in place of the entry for `k` if
/// there is one, else at the end.
pub open spec fn spec_put<V, P>(entries: Seq<(V, P)>, k: V, f: P) -> Seq<(V, P)> {
    let j = spec_find(entries, k);
    if j < entries.len() {
        entries.update(j, (k, f))
    } else {
        entries.push((k, f))
    }
}

/// The entries that `pairs` give: for each key what the last pair with
/// that key gives for it, in the order in which the keys first occur.
pub open spec fn spec_collected<V, P>(pairs: Seq<(V, P)>) -> Seq<(V, P)>
    decreases pairs.len(),
{
    if pairs.len() == 0 {
        Seq::empty()
    } else {
        spec_put(spec_collected(pairs.drop_last()), pairs.last().0, pairs.last().1)
    }
}

/// The place of the first entry for `t`, or the number of entries where
/// there is none.
pub fn find<K: ModelKey, P: View>(entries: &Vec<(K, P)>, t: &K) -> (j: usize)
    ensures
        j == spec_find(entry_views(entries@), t@),
        j <= entries@.len(),
{
    let ghost e = entry_views(entries@);
    let mut j: usize = 0;
    proof {
        assert(e.skip(0) =~= e);
    }
    while j < entries.len()
        invariant
            e == entry_views(entries@),
            j <= entries@.len(),
            spec_find(e, t@) == j + spec_find(e.skip(j as int), t@),
        decreases entries@.len() - j,
    {
        proof {
            assert(e.skip(j as int)[0] == e[j as int]);
            assert(e.skip(j as int).skip(1) =~= e.skip(j + 1));
        }
        if entries[j].0.same(t) {
            return j;
        }
        j = j + 1;
    }
    j
}

/// The place that `spec_find` gives is the first place of the key, or the
/// number of entries where no entry has the key.
pub proof fn lemma_find<V, P>(entries: Seq<(V, P)>, k: V)
    ensures
        0 <= spec_find(entries, k) <= entries.len(),
        spec_find(entries, k) < entries.len() ==> entries[spec_find(entries, k)].0 == k,
        forall|i: int| 0 <= i < spec_find(entries, k) ==> (#[trigger] entries[i]).0 != k,
    decreases entries.len(),
{
    if entries.len() > 0 && entries[0].0 != k {
        let rest = entries.skip(1);
        lemma_find(rest, k);
        assert forall|i: int| 0 <= i < spec_find(entries, k) implies (#[trigger] entries[i]).0
            != k by {
            if i > 0 {
                assert(entries[i] == rest[i - 1]);
            }
        }
    }
}

/// Where the entry for a key stands when an entry joins at the end.
pub proof fn lemma_find_push<V, P>(entries: Seq<(V, P)>, x: (V, P), k: V)
    ensures
        spec_find(entries, k) < entries.len() ==> spec_find(entries.push(x), k) == spec_find(
            entries,
            k,
        ),
        spec_find(entries, k) == entries.len() && x.0 == k ==> spec_find(entries.push(x), k)
            == entries.len(),
        spec_find(entries, k) == entries.len() && x.0 != k ==> spec_find(entries.push(x), k)
            == entries.len() + 1,
    decreases entries.len(),
{
    lemma_find(entries, k);
    let more = entries.push(x);
    if entries.len() == 0 {
        assert(more.skip(1) =~= Seq::<(V, P)>::empty());
        assert(spec_find(more.skip(1), k) == 0);
    } else {
        assert(more[0] == entries[0]);
        if entries[0].0 != k {
            assert(more.skip(1) =~= entries.skip(1).push(x));
            lemma_find_push(entries.skip(1), x, k);
        }
    }
}

/// Where the entry for a key stands when what an entry gives for its key
/// changes.
pub proof fn lemma_find_update<V, P>(entries: Seq<(V, P)>, j: int, f: P, k: V)
    requires
        0 <= j < entries.len(),
    ensures
        spec_find(entries.update(j, (entries[j].0, f)), k) == spec_find(entries, k),
    decreases entries.len(),
{
    let changed = entries.update(j, (entries[j].0, f));
    if entries[0].0 != k {
        if j == 0 {
            assert(changed.skip(1) =~= entries.skip(1));
        } else {
            assert(changed.skip(1) =~= entries.skip(1).update(j - 1, (entries[j].0, f)));
            lemma_find_update(entries.skip(1), j - 1, f, k);
        }
    }
}

/// Putting an entry for a key keeps the keys apart.
pub proof fn lemma_put<V, P>(entries: Seq<(V, P)>, k: V, f: P)
    requires
        spec_keys(entries).no_duplicates(),
    ensures
        spec_keys(spec_put(entries, k, f)).no_duplicates(),
{
    let j = spec_find(entries, k);
    lemma_find(entries, k);
    let more = spec_put(entries, k, f);
    if j < entries.len() {
        assert(spec_keys(more) =~= spec_keys(entries));
    } else {
        assert forall|a: int, b: int|
            0 <= a < more.len() && 0 <= b < more.len() && a != b implies spec_keys(more)[a]
            != spec_keys(more)[b] by {
            if a < entries.len() && b < entries.len() {
                assert(spec_keys(entries)[a] != spec_keys(entries)[b]);
            } else if a < entries.len() {
                assert(entries[a].0 != k);
            } else {
                assert(entries[b].0 != k);
            }
        }
    }
}

/// What pairs give has one entry for each key.
pub proof fn lemma_collected<V, P>(pairs: Seq<(V, P)>)
    ensures
        spec_keys(spec_collected(pairs)).no_duplicates(),
        spec_collected(pairs).len() <= pairs.len(),
    decreases pairs.len(),
{
    if pairs.len() > 0 {
        lemma_collected(pairs.drop_last());
        lemma_put(spec_collected(pairs.drop_last()), pairs.last().0, pairs.last().1);
        lemma_find(spec_collected(pairs.drop_last()), pairs.last().0);
    }
}

/// Pairs with different keys give themselves.
pub proof fn lemma_collected_distinct<V, P>(pairs: Seq<(V, P)>)
    requires
        spec_keys(pairs).no_duplicates(),
    ensures
        spec_collected(pairs) == pairs,
    decreases pairs.len(),
{
    if pairs.len() == 0 {
        assert(spec_collected(pairs) =~= pairs);
    } else {
        let front = pairs.drop_last();
        let last = pairs.last();
        assert(spec_keys(front).no_duplicates()) by {
            assert forall|a: int, b: int|
                0 <= a < front.len() && 0 <= b < front.len() && a != b implies spec_keys(front)[a]
                != spec_keys(front)[b] by {
                assert(spec_keys(pairs)[a] != spec_keys(pairs)[b]);
            }
        }
        lemma_collected_distinct(front);
        lemma_find(front, last.0);
        let j = spec_find(front, last.0);
        if j < front.len() {
            assert(spec_keys(pairs)[j] == spec_keys(pairs)[pairs.len() - 1]);
        }
        assert(front.push(last) =~= pairs);
    }
}

} // verus!
