//! [`Model`], a statically computed zero order model over a stream of
//! [`ModelKey`]s.
//!
//! The function [`from()`] computes the [`Model`] of a stream of keys.

use crate::assoc::{
    entry_views, find, key_views, lemma_collected, lemma_find, lemma_find_push,
    lemma_find_update, spec_collected, spec_find, spec_keys, spec_put,
};
use crate::sums::{
    lemma_sum_bounds, lemma_sum_insert, lemma_sum_nonnegative, lemma_sum_push, lemma_sum_update,
    sum,
};
use vstd::prelude::*;

verus! {

/// What the keys of a [`Model`] can do: they can be told apart, and
/// copied. The view of a key is what tells it from other keys.
pub trait ModelKey: View + Sized {
    /// Whether `other` is the same key.
    fn same(&self, other: &Self) -> (r: bool)
        ensures
            r == (self@ == other@),
    ;

    /// A copy of the key.
    fn duplicate(&self) -> (r: Self)
        ensures
            r@ == self@,
    ;
}

/// The frequencies of `entries`, in their order.
pub open spec fn spec_freqs<V>(entries: Seq<(V, u64)>) -> Seq<u64> {
    Seq::new(entries.len(), |i: int| entries[i].1)
}

/// The frequency that `entries` give for the key `k`: `0` where they hold
/// no entry for it.
pub open spec fn spec_frequency<V>(entries: Seq<(V, u64)>, k: V) -> u64 {
    let j = spec_find(entries, k);
    if j < entries.len() {
        entries[j].1
    } else {
        0
    }
}

/// What makes entries the entries of a model: no key has two entries, no
/// frequency is `0`, and the sum of the frequencies is a `u64`.
pub open spec fn model_ok<V>(entries: Seq<(V, u64)>) -> bool {
    &&& spec_keys(entries).no_duplicates()
    &&& forall|i: int| 0 <= i < entries.len() ==> (#[trigger] entries[i]).1 >= 1
    &&& sum(spec_freqs(entries)) <= u64::MAX
}

/// The entries with the key `k` counted once more.
pub open spec fn spec_bumped<V>(entries: Seq<(V, u64)>, k: V) -> Seq<(V, u64)> {
    let j = spec_find(entries, k);
    if j < entries.len() {
        entries.update(j, (k, (entries[j].1 + 1) as u64))
    } else {
        entries.push((k, 1u64))
    }
}

/// The entries that counting the keys of `keys` gives: an entry for each
/// key, in the order in which the keys first occur, with the number of
/// times that the key occurs.
pub open spec fn spec_counted<V>(keys: Seq<V>) -> Seq<(V, u64)>
    decreases keys.len(),
{
    if keys.len() == 0 {
        Seq::empty()
    } else {
        spec_bumped(spec_counted(keys.drop_last()), keys.last())
    }
}

/// The entries whose frequency is not `0`, in their order.
pub open spec fn spec_occurring<V>(entries: Seq<(V, u64)>) -> Seq<(V, u64)>
    decreases entries.len(),
{
    if entries.len() == 0 {
        Seq::empty()
    } else if entries.last().1 > 0 {
        spec_occurring(entries.drop_last()).push(entries.last())
    } else {
        spec_occurring(entries.drop_last())
    }
}

/// The number of entries at the start of `sorted` whose frequency is at
/// least `f`.
pub open spec fn spec_insert_pos<V>(sorted: Seq<(V, u64)>, f: u64) -> int
    decreases sorted.len(),
{
    if sorted.len() == 0 || sorted[0].1 < f {
        0
    } else {
        1 + spec_insert_pos(sorted.skip(1), f)
    }
}

/// The entries sorted by frequency, highest first. Entries of the same
/// frequency keep their order.
pub open spec fn spec_sorted<V>(entries: Seq<(V, u64)>) -> Seq<(V, u64)>
    decreases entries.len(),
{
    if entries.len() == 0 {
        Seq::empty()
    } else {
        let sorted = spec_sorted(entries.drop_last());
        sorted.insert(spec_insert_pos(sorted, entries.last().1), entries.last())
    }
}

/// A statically computed zero order model for compression.
///
/// The model gives the frequency of each key of a stream of keys.
#[derive(Clone, Debug, PartialEq)]
pub struct Model<K: ModelKey> {
    entries: Vec<(K, u64)>,
}

impl<K: ModelKey> Model<K> {
    /// The keys of the model with their frequencies, in the order in which
    /// the model holds them.
    pub closed spec fn spec_entries(&self) -> Seq<(K::V, u64)> {
        entry_views(self.entries@)
    }

    /// The entries of the model are entries of a model.
    pub open spec fn wf(&self) -> bool {
        model_ok(self.spec_entries())
    }

    /// Frequency of occurrence of a [`ModelKey`].
    pub fn frequency(&self, t: &K) -> (f: u64)
        ensures
            f == spec_frequency(self.spec_entries(), t@),
    {
        let j = find(&self.entries, t);
        if j < self.entries.len() {
            self.entries[j].1
        } else {
            0
        }
    }

    /// [`ModelKey`] count in the model.
    pub fn len(&self) -> (n: usize)
        ensures
            n == self.spec_entries().len(),
    {
        self.entries.len()
    }

    /// Return whether this model is empty.
    pub fn is_empty(&self) -> (e: bool)
        ensures
            e == (self.spec_entries().len() == 0),
    {
        self.entries.len() == 0
    }

    /// The sum of the frequencies of all the keys.
    pub fn total(&self) -> (n: u64)
        requires
            self.wf(),
        ensures
            n == sum(spec_freqs(self.spec_entries())),
    {
        let ghost freqs = spec_freqs(self.spec_entries());
        let mut n: u64 = 0;
        let mut i: usize = 0;
        proof {
            assert(freqs.take(0) =~= Seq::<u64>::empty());
        }
        while i < self.entries.len()
            invariant
                freqs == spec_freqs(self.spec_entries()),
                sum(freqs) <= u64::MAX,
                i <= self.entries@.len(),
                n == sum(freqs.take(i as int)),
            decreases self.entries@.len() - i,
        {
            proof {
                crate::sums::lemma_sum_take(freqs, i as int);
                crate::sums::lemma_sum_take_le(freqs, i + 1);
            }
            n = n + self.entries[i].1;
            i = i + 1;
        }
        proof {
            assert(freqs.take(i as int) =~= freqs);
        }
        n
    }

    /// The keys of the model with their frequencies, sorted by frequency,
    /// highest first. Keys of the same frequency keep the order in which
    /// the model holds them.
    pub fn sorted(&self) -> (out: Vec<(K, u64)>)
        ensures
            entry_views(out@) == spec_sorted(self.spec_entries()),
    {
        let ghost e = self.spec_entries();
        let mut out: Vec<(K, u64)> = Vec::with_capacity(self.entries.len());
        let mut i: usize = 0;
        proof {
            assert(e.take(0) =~= Seq::<(K::V, u64)>::empty());
            assert(entry_views(out@) =~= spec_sorted(e.take(0)));
        }
        while i < self.entries.len()
            invariant
                e == self.spec_entries(),
                i <= self.entries@.len(),
                entry_views(out@) == spec_sorted(e.take(i as int)),
            decreases self.entries@.len() - i,
        {
            let f = self.entries[i].1;
            let ghost s = entry_views(out@);
            let mut p: usize = 0;
            proof {
                assert(s.skip(0) =~= s);
            }
            while p < out.len() && out[p].1 >= f
                invariant
                    s == entry_views(out@),
                    p <= out@.len(),
                    spec_insert_pos(s, f) == p + spec_insert_pos(s.skip(p as int), f),
                decreases out@.len() - p,
            {
                proof {
                    assert(s.skip(p as int)[0] == s[p as int]);
                    assert(s.skip(p as int).skip(1) =~= s.skip(p + 1));
                }
                p = p + 1;
            }
            proof {
                if p < out.len() {
                    assert(s.skip(p as int)[0] == s[p as int]);
                }
            }
            let k = self.entries[i].0.duplicate();
            out.insert(p, (k, f));
            proof {
                assert(e.take(i + 1).drop_last() =~= e.take(i as int));
                assert(e.take(i + 1).last() == e[i as int]);
                assert(entry_views(out@) =~= s.insert(p as int, (k@, f)));
            }
            i = i + 1;
        }
        proof {
            assert(e.take(i as int) =~= e);
        }
        out
    }

    /// Return the [`ModelKey`] set in the model sorted by relative
    /// frequencies, highest first.
    pub fn tokens_sorted(&self) -> (keys: Vec<K>)
        ensures
            key_views(keys@) == spec_keys(spec_sorted(self.spec_entries())),
    {
        let sorted = self.sorted();
        let mut keys: Vec<K> = Vec::with_capacity(sorted.len());
        let mut i: usize = 0;
        while i < sorted.len()
            invariant
                i <= sorted@.len(),
                keys@.len() == i,
                forall|j: int| 0 <= j < i ==> (#[trigger] keys@[j])@ == sorted@[j].0@,
            decreases sorted@.len() - i,
        {
            keys.push(sorted[i].0.duplicate());
            i = i + 1;
        }
        proof {
            assert(key_views(keys@) =~= spec_keys(entry_views(sorted@)));
        }
        keys
    }
}

/// Generate a zero order model from the given [`ModelKey`] stream: each
/// key that occurs in the stream, with the number of times it occurs.
pub fn from<K: ModelKey>(ts: Vec<K>) -> (m: Model<K>)
    ensures
        m.wf(),
        m.spec_entries() == spec_counted(key_views(ts@)),
{
    let ghost keys = key_views(ts@);
    let mut entries: Vec<(K, u64)> = Vec::new();
    let mut i: usize = 0;
    proof {
        assert(keys.take(0) =~= Seq::<K::V>::empty());
        assert(entry_views(entries@) =~= spec_counted(keys.take(0)));
    }
    while i < ts.len()
        invariant
            keys == key_views(ts@),
            i <= ts@.len(),
            entry_views(entries@) == spec_counted(keys.take(i as int)),
        decreases ts@.len() - i,
    {
        let ghost e = entry_views(entries@);
        proof {
            assert(ts.len() == ts@.len());
            lemma_counted(keys.take(i as int));
            lemma_bumped(e, keys[i as int]);
            lemma_find(e, keys[i as int]);
            assert(keys.take(i + 1).drop_last() =~= keys.take(i as int));
            assert(keys.take(i + 1).last() == keys[i as int]);
        }
        let j = find(&entries, &ts[i]);
        let k = ts[i].duplicate();
        if j < entries.len() {
            proof {
                lemma_sum_bounds(spec_freqs(e), j as int);
            }
            let f = entries[j].1;
            entries.set(j, (k, f + 1));
        } else {
            entries.push((k, 1));
        }
        proof {
            assert(entry_views(entries@) =~= spec_bumped(e, keys[i as int]));
        }
        i = i + 1;
    }
    proof {
        assert(keys.take(i as int) =~= keys);
        assert(ts.len() == ts@.len());
        lemma_counted(keys);
    }
    let m = Model { entries };
    proof {
        assert(m.spec_entries() =~= entry_views(m.entries@));
    }
    m
}

/// Instantiate a zero order model from the given precomputed frequencies.
///
/// Where a key is given more than once, its last frequency counts. A key
/// with the frequency `0` does not occur, and is no key of the model.
pub fn with_frequencies<K: ModelKey>(fs: &[(K, u64)]) -> (m: Model<K>)
    requires
        sum(spec_freqs(spec_collected(entry_views(fs@)))) <= u64::MAX,
    ensures
        m.wf(),
        m.spec_entries() == spec_occurring(spec_collected(entry_views(fs@))),
{
    let ghost pairs = entry_views(fs@);
    let mut all: Vec<(K, u64)> = Vec::new();
    let mut i: usize = 0;
    proof {
        assert(pairs.take(0) =~= Seq::<(K::V, u64)>::empty());
        assert(entry_views(all@) =~= spec_collected(pairs.take(0)));
    }
    while i < fs.len()
        invariant
            pairs == entry_views(fs@),
            i <= fs@.len(),
            entry_views(all@) == spec_collected(pairs.take(i as int)),
        decreases fs@.len() - i,
    {
        let ghost e = entry_views(all@);
        proof {
            lemma_find(e, pairs[i as int].0);
            assert(pairs.take(i + 1).drop_last() =~= pairs.take(i as int));
            assert(pairs.take(i + 1).last() == pairs[i as int]);
        }
        let j = find(&all, &fs[i].0);
        let k = fs[i].0.duplicate();
        let f = fs[i].1;
        if j < all.len() {
            all.set(j, (k, f));
        } else {
            all.push((k, f));
        }
        proof {
            assert(entry_views(all@) =~= spec_put(e, pairs[i as int].0, pairs[i as int].1));
        }
        i = i + 1;
    }
    let ghost collected = entry_views(all@);
    proof {
        assert(pairs.take(i as int) =~= pairs);
        lemma_collected(pairs);
    }
    let mut entries: Vec<(K, u64)> = Vec::new();
    let mut a: usize = 0;
    proof {
        assert(collected.take(0) =~= Seq::<(K::V, u64)>::empty());
        assert(entry_views(entries@) =~= spec_occurring(collected.take(0)));
    }
    while a < all.len()
        invariant
            collected == entry_views(all@),
            a <= all@.len(),
            entry_views(entries@) == spec_occurring(collected.take(a as int)),
        decreases all@.len() - a,
    {
        let ghost before = entry_views(entries@);
        proof {
            assert(collected.take(a + 1).drop_last() =~= collected.take(a as int));
            assert(collected.take(a + 1).last() == collected[a as int]);
        }
        if all[a].1 > 0 {
            let k = all[a].0.duplicate();
            entries.push((k, all[a].1));
            proof {
                assert(entry_views(entries@) =~= before.push(collected[a as int]));
            }
        }
        a = a + 1;
    }
    proof {
        assert(collected.take(a as int) =~= collected);
        lemma_occurring(collected);
    }
    let m = Model { entries };
    proof {
        assert(m.spec_entries() =~= entry_views(m.entries@));
    }
    m
}

/// The frequencies of `entries`, in their order.
pub fn freqs_of<K: ModelKey>(entries: &Vec<(K, u64)>) -> (freqs: Vec<u64>)
    ensures
        freqs@ == spec_freqs(entry_views(entries@)),
{
    let mut freqs: Vec<u64> = Vec::with_capacity(entries.len());
    let mut i: usize = 0;
    while i < entries.len()
        invariant
            i <= entries@.len(),
            freqs@.len() == i,
            forall|j: int| 0 <= j < i ==> #[trigger] freqs@[j] == entries@[j].1,
        decreases entries@.len() - i,
    {
        freqs.push(entries[i].1);
        i = i + 1;
    }
    proof {
        assert(freqs@ =~= spec_freqs(entry_views(entries@)));
    }
    freqs
}

/// Counting gives the entries of a model: each key that occurs has one
/// entry, with the number of times that it occurs, and the frequencies
/// sum up to the number of keys counted.
pub proof fn lemma_counted<V>(keys: Seq<V>)
    requires
        keys.len() <= u64::MAX,
    ensures
        model_ok(spec_counted(keys)),
        sum(spec_freqs(spec_counted(keys))) == keys.len(),
        forall|k: V| #[trigger]
            spec_frequency(spec_counted(keys), k) == keys.to_multiset().count(k),
    decreases keys.len(),
{
    broadcast use vstd::multiset::group_multiset_axioms;

    if keys.len() == 0 {
        assert(spec_keys(spec_counted(keys)) =~= Seq::<V>::empty());
        assert(spec_freqs(spec_counted(keys)) =~= Seq::<u64>::empty());
        keys.to_multiset_ensures();
        assert forall|k: V| #[trigger]
            spec_frequency(spec_counted(keys), k) == keys.to_multiset().count(k) by {
            assert(keys.to_multiset().len() == 0);
            if keys.to_multiset().count(k) > 0 {
                assert(keys.to_multiset().contains(k));
            }
        }
    } else {
        let front = keys.drop_last();
        let last = keys.last();
        lemma_counted(front);
        lemma_bumped(spec_counted(front), last);
        assert(front.push(last) =~= keys);
        vstd::seq_lib::to_multiset_build(front, last);
        assert forall|k: V| #[trigger]
            spec_frequency(spec_counted(keys), k) == keys.to_multiset().count(k) by {
            assert(spec_frequency(spec_counted(front), k) == front.to_multiset().count(k));
        }
    }
}

/// Sorting keeps the entries those of a model, and puts them in the
/// order of their frequencies, highest first.
pub proof fn lemma_sorted<V>(entries: Seq<(V, u64)>)
    requires
        model_ok(entries),
    ensures
        model_ok(spec_sorted(entries)),
        spec_sorted(entries).len() == entries.len(),
        spec_sorted(entries).to_multiset() == entries.to_multiset(),
        sum(spec_freqs(spec_sorted(entries))) == sum(spec_freqs(entries)),
        forall|i: int, j: int|
            0 <= i <= j < entries.len() ==> (#[trigger] spec_sorted(entries)[i]).1 >= (
            #[trigger] spec_sorted(entries)[j]).1,
    decreases entries.len(),
{
    let out = spec_sorted(entries);
    if entries.len() == 0 {
        assert(spec_keys(out) =~= Seq::<V>::empty());
        assert(out =~= entries);
    } else {
        let front = entries.drop_last();
        let last = entries.last();
        let freqs = spec_freqs(entries);
        assert(spec_freqs(front) =~= freqs.drop_last());
        assert(spec_keys(front) =~= spec_keys(entries).drop_last());
        lemma_sum_nonnegative(spec_freqs(front));
        assert(model_ok(front)) by {
            assert forall|a: int, b: int|
                0 <= a < front.len() && 0 <= b < front.len() && a != b implies spec_keys(front)[a]
                != spec_keys(front)[b] by {
                assert(spec_keys(entries)[a] != spec_keys(entries)[b]);
            }
            assert forall|i: int| 0 <= i < front.len() implies (#[trigger] front[i]).1 >= 1 by {
                assert(front[i] == entries[i]);
            }
        }
        lemma_sorted(front);
        let s = spec_sorted(front);
        let p = spec_insert_pos(s, last.1);
        lemma_insert_pos(s, last.1);
        s.insert_ensures(p, last);
        vstd::seq_lib::to_multiset_insert(s, p, last);
        assert(front.push(last) =~= entries);
        vstd::seq_lib::to_multiset_build(front, last);
        assert(spec_freqs(out) =~= spec_freqs(s).insert(p, last.1));
        lemma_sum_insert(spec_freqs(s), p, last.1);
        // No key has two entries.
        assert forall|a: int, b: int|
            0 <= a < out.len() && 0 <= b < out.len() && a != b implies spec_keys(out)[a]
            != spec_keys(out)[b] by {
            let ka = out[a].0;
            let kb = out[b].0;
            if a != p && b != p {
                let a0 = if a < p {
                    a
                } else {
                    a - 1
                };
                let b0 = if b < p {
                    b
                } else {
                    b - 1
                };
                assert(out[a] == s[a0] && out[b] == s[b0]);
                assert(spec_keys(s)[a0] != spec_keys(s)[b0]);
            } else {
                let x = if a == p {
                    b
                } else {
                    a
                };
                let x0 = if x < p {
                    x
                } else {
                    x - 1
                };
                assert(out[x] == s[x0]);
                s.to_multiset_ensures();
                front.to_multiset_ensures();
                assert(s.to_multiset().contains(s[x0]));
                assert(front.contains(s[x0]));
                let y = choose|y: int| 0 <= y < front.len() && front[y] == s[x0];
                assert(spec_keys(entries)[y] != spec_keys(entries)[entries.len() - 1]);
            }
        }
        assert forall|i: int| 0 <= i < out.len() implies (#[trigger] out[i]).1 >= 1 by {
            if i != p {
                let i0 = if i < p {
                    i
                } else {
                    i - 1
                };
                assert(out[i] == s[i0]);
            }
        }
        assert forall|i: int, j: int| 0 <= i <= j < entries.len() implies (#[trigger] out[i]).1 >= (
        #[trigger] out[j]).1 by {
            let i0 = if i < p {
                i
            } else {
                i - 1
            };
            let j0 = if j < p {
                j
            } else {
                j - 1
            };
            if i != p {
                assert(out[i] == s[i0]);
            }
            if j != p {
                assert(out[j] == s[j0]);
            }
            if i != p && j != p {
                assert(s[i0].1 >= s[j0].1);
            } else if i == p && j != p {
                assert(s[p].1 >= s[j0].1);
            }
        }
    }
}

/// Counting a key once more keeps the entries those of a model, adds one
/// to the frequency of the key, and leaves the other frequencies alone.
pub proof fn lemma_bumped<V>(entries: Seq<(V, u64)>, k: V)
    requires
        model_ok(entries),
        sum(spec_freqs(entries)) < u64::MAX,
    ensures
        model_ok(spec_bumped(entries, k)),
        sum(spec_freqs(spec_bumped(entries, k))) == sum(spec_freqs(entries)) + 1,
        spec_frequency(spec_bumped(entries, k), k) == spec_frequency(entries, k) + 1,
        forall|other: V|
            other != k ==> #[trigger] spec_frequency(spec_bumped(entries, k), other)
                == spec_frequency(entries, other),
{
    let j = spec_find(entries, k);
    lemma_find(entries, k);
    let more = spec_bumped(entries, k);
    let freqs = spec_freqs(entries);
    if j < entries.len() {
        lemma_sum_bounds(freqs, j);
        let f = (entries[j].1 + 1) as u64;
        assert(spec_freqs(more) =~= freqs.update(j, f));
        lemma_sum_update(freqs, j, f);
        assert(spec_keys(more) =~= spec_keys(entries));
        assert forall|other: V| true implies #[trigger] spec_find(more, other) == spec_find(
            entries,
            other,
        ) by {
            lemma_find_update(entries, j, f, other);
        }
        assert forall|other: V| other != k implies #[trigger] spec_frequency(more, other)
            == spec_frequency(entries, other) by {
            lemma_find(entries, other);
            assert(spec_find(more, other) == spec_find(entries, other));
        }
        assert(spec_find(more, k) == j);
    } else {
        assert(spec_freqs(more) =~= freqs.push(1u64));
        lemma_sum_push(freqs, 1u64);
        assert(spec_keys(more) =~= spec_keys(entries).push(k));
        assert forall|a: int, b: int|
            0 <= a < more.len() && 0 <= b < more.len() && a != b implies spec_keys(more)[a]
            != spec_keys(more)[b] by {
            if a < entries.len() && b < entries.len() {
                assert(spec_keys(entries)[a] != spec_keys(entries)[b]);
            } else if a < entries.len() {
                assert(entries[a].0 != k);
            } else {
                assert(entries[b].0 != k);
            }
        }
        assert forall|other: V| other != k implies #[trigger] spec_frequency(more, other)
            == spec_frequency(entries, other) by {
            lemma_find_push(entries, (k, 1u64), other);
            lemma_find(entries, other);
        }
        lemma_find_push(entries, (k, 1u64), k);
    }
}

/// Leaving out the entries with the frequency `0` leaves entries of the
/// entries, in their order, with the same sum.
pub proof fn lemma_occurring<V>(entries: Seq<(V, u64)>)
    ensures
        spec_occurring(entries).len() <= entries.len(),
        forall|i: int|
            0 <= i < spec_occurring(entries).len() ==> entries.contains(
                #[trigger] spec_occurring(entries)[i],
            ) && spec_occurring(entries)[i].1 >= 1,
        sum(spec_freqs(spec_occurring(entries))) == sum(spec_freqs(entries)),
        spec_keys(entries).no_duplicates() ==> spec_keys(spec_occurring(entries)).no_duplicates(),
    decreases entries.len(),
{
    let out = spec_occurring(entries);
    if entries.len() == 0 {
        assert(spec_freqs(out) =~= spec_freqs(entries));
    } else {
        let front = entries.drop_last();
        let last = entries.last();
        lemma_occurring(front);
        let fo = spec_occurring(front);
        assert(spec_freqs(front) =~= spec_freqs(entries).drop_last());
        assert forall|i: int| 0 <= i < fo.len() implies entries.contains(#[trigger] fo[i]) by {
            let y = choose|y: int| 0 <= y < front.len() && front[y] == fo[i];
            assert(entries[y] == fo[i]);
        }
        if last.1 > 0 {
            assert(spec_freqs(out) =~= spec_freqs(fo).push(last.1));
            lemma_sum_push(spec_freqs(fo), last.1);
            assert(entries[entries.len() - 1] == last);
            assert forall|i: int| 0 <= i < out.len() implies entries.contains(#[trigger] out[i])
                && out[i].1 >= 1 by {
                if i < fo.len() {
                    assert(out[i] == fo[i]);
                }
            }
        }
        if spec_keys(entries).no_duplicates() {
            assert(spec_keys(front).no_duplicates()) by {
                assert forall|a: int, b: int|
                    0 <= a < front.len() && 0 <= b < front.len() && a != b implies spec_keys(
                    front,
                )[a] != spec_keys(front)[b] by {
                    assert(spec_keys(entries)[a] != spec_keys(entries)[b]);
                }
            }
            if last.1 > 0 {
                assert forall|a: int, b: int|
                    0 <= a < out.len() && 0 <= b < out.len() && a != b implies spec_keys(out)[a]
                    != spec_keys(out)[b] by {
                    if a < fo.len() && b < fo.len() {
                        assert(spec_keys(fo)[a] != spec_keys(fo)[b]);
                    } else {
                        let x = if a < fo.len() {
                            a
                        } else {
                            b
                        };
                        let y = choose|y: int| 0 <= y < front.len() && front[y] == fo[x];
                        assert(spec_keys(entries)[y] != spec_keys(entries)[entries.len() - 1]);
                    }
                }
            }
        }
    }
}

/// The place of the first entry of `sorted` with a frequency below `f`.
pub proof fn lemma_insert_pos<V>(sorted: Seq<(V, u64)>, f: u64)
    ensures
        0 <= spec_insert_pos(sorted, f) <= sorted.len(),
        spec_insert_pos(sorted, f) < sorted.len() ==> sorted[spec_insert_pos(sorted, f)].1 < f,
        forall|i: int| 0 <= i < spec_insert_pos(sorted, f) ==> (#[trigger] sorted[i]).1 >= f,
    decreases sorted.len(),
{
    if sorted.len() > 0 && sorted[0].1 >= f {
        let rest = sorted.skip(1);
        lemma_insert_pos(rest, f);
        assert forall|i: int| 0 <= i < spec_insert_pos(sorted, f) implies (#[trigger] sorted[i]).1
            >= f by {
            if i > 0 {
                assert(sorted[i] == rest[i - 1]);
            }
        }
    }
}

/// A model has no more entries than the sum of its frequencies.
pub proof fn lemma_entries_bound<V>(entries: Seq<(V, u64)>)
    requires
        forall|i: int| 0 <= i < entries.len() ==> (#[trigger] entries[i]).1 >= 1,
    ensures
        entries.len() <= sum(spec_freqs(entries)),
    decreases entries.len(),
{
    if entries.len() > 0 {
        let front = entries.drop_last();
        assert(spec_freqs(front) =~= spec_freqs(entries).drop_last());
        assert forall|i: int| 0 <= i < front.len() implies (#[trigger] front[i]).1 >= 1 by {
            assert(front[i] == entries[i]);
        }
        lemma_entries_bound(front);
        assert(entries[entries.len() - 1].1 >= 1);
    }
}

} // verus!
