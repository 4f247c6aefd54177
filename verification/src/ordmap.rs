//! An ordered map from `u64` keys to values, stored as a vector of entries
//! with strictly increasing keys. The replication runtime keys everything
//! by plain integers — ticks, client ids, server entities, replicate ids —
//! and needs deterministic ascending iteration for its wire output, so one
//! verified container serves every table in the crate.

use vstd::prelude::*;

verus! {

/// The finite map denoted by a sequence of key–value entries, later
/// entries overriding earlier ones on equal keys.
pub open spec fn entries_to_map<V>(s: Seq<(u64, V)>) -> Map<u64, V>
    decreases s.len(),
{
    if s.len() == 0 {
        Map::empty()
    } else {
        entries_to_map(s.drop_last()).insert(s.last().0, s.last().1)
    }
}

/// Entry keys strictly increase.
pub open spec fn entries_sorted<V>(s: Seq<(u64, V)>) -> bool {
    forall|i: int, j: int| 0 <= i < j < s.len() ==> s[i].0 < s[j].0
}

/// A key is in the map exactly when some entry carries it.
pub proof fn lemma_entries_to_map_contains<V>(s: Seq<(u64, V)>, k: u64)
    ensures
        entries_to_map(s).contains_key(k) <==> exists|i: int|
            0 <= i < s.len() && (#[trigger] s[i]).0 == k,
    decreases s.len(),
{
    if s.len() > 0 {
        let dl = s.drop_last();
        lemma_entries_to_map_contains(dl, k);
        if entries_to_map(s).contains_key(k) && k != s.last().0 {
            let i = choose|i: int| 0 <= i < dl.len() && (#[trigger] dl[i]).0 == k;
            assert(s[i].0 == k);
        }
        if exists|i: int| 0 <= i < s.len() && (#[trigger] s[i]).0 == k {
            let i = choose|i: int| 0 <= i < s.len() && (#[trigger] s[i]).0 == k;
            if i < s.len() - 1 {
                assert(dl[i].0 == k);
            }
        }
    }
}

/// The entry at an index gives the key's value, provided keys are distinct.
pub proof fn lemma_entries_to_map_value<V>(s: Seq<(u64, V)>, i: int)
    requires
        entries_sorted(s),
        0 <= i < s.len(),
    ensures
        entries_to_map(s).contains_key(s[i].0),
        entries_to_map(s)[s[i].0] == s[i].1,
    decreases s.len(),
{
    let dl = s.drop_last();
    if i < s.len() - 1 {
        lemma_entries_to_map_value(dl, i);
        assert(dl[i] == s[i]);
    }
}

/// Dropping the last entry removes exactly its key.
pub proof fn lemma_entries_to_map_drop_last<V>(s: Seq<(u64, V)>)
    requires
        entries_sorted(s),
        s.len() > 0,
    ensures
        entries_to_map(s.drop_last()) == entries_to_map(s).remove(s.last().0),
{
    lemma_entries_to_map_contains(s.drop_last(), s.last().0);
    assert(entries_to_map(s.drop_last()) =~= entries_to_map(s).remove(s.last().0));
}

/// Removing the entry at an index removes exactly its key.
pub proof fn lemma_entries_to_map_remove<V>(s: Seq<(u64, V)>, i: int)
    requires
        entries_sorted(s),
        0 <= i < s.len(),
    ensures
        entries_sorted(s.remove(i)),
        entries_to_map(s.remove(i)) == entries_to_map(s).remove(s[i].0),
    decreases s.len(),
{
    assert forall|p: int, q: int| 0 <= p < q < s.remove(i).len() implies (s.remove(i)[p]).0 < (
    s.remove(i)[q]).0 by {
        if q < i {
        } else if p < i {
            assert(s.remove(i)[q] == s[q + 1]);
        } else {
            assert(s.remove(i)[p] == s[p + 1]);
            assert(s.remove(i)[q] == s[q + 1]);
        }
    }
    if i == s.len() - 1 {
        assert(s.remove(i) =~= s.drop_last());
        lemma_entries_to_map_drop_last(s);
    } else {
        let dl = s.drop_last();
        lemma_entries_to_map_remove(dl, i);
        assert(s.remove(i).drop_last() =~= dl.remove(i));
        assert(s.remove(i).last() == s.last());
        assert(entries_to_map(s.remove(i)) == entries_to_map(dl.remove(i)).insert(
            s.last().0,
            s.last().1,
        ));
        assert(s[i].0 != s.last().0);
        assert(entries_to_map(dl).remove(s[i].0).insert(s.last().0, s.last().1)
            =~= entries_to_map(dl).insert(s.last().0, s.last().1).remove(s[i].0));
    }
}

/// Inserting an entry between the keys below and above it inserts exactly
/// its key.
pub proof fn lemma_entries_to_map_insert<V>(s: Seq<(u64, V)>, pos: int, k: u64, v: V)
    requires
        entries_sorted(s),
        0 <= pos <= s.len(),
        forall|j: int| 0 <= j < pos ==> (#[trigger] s[j]).0 < k,
        forall|j: int| pos <= j < s.len() ==> (#[trigger] s[j]).0 > k,
    ensures
        entries_sorted(s.insert(pos, (k, v))),
        entries_to_map(s.insert(pos, (k, v))) == entries_to_map(s).insert(k, v),
    decreases s.len(),
{
    let t = s.insert(pos, (k, v));
    assert forall|p: int, q: int| 0 <= p < q < t.len() implies (t[p]).0 < (t[q]).0 by {
        if q < pos {
        } else if p < pos {
            if q > pos {
                assert(t[q] == s[q - 1]);
            }
        } else if p == pos {
            assert(t[q] == s[q - 1]);
        } else {
            assert(t[p] == s[p - 1]);
            assert(t[q] == s[q - 1]);
        }
    }
    if pos == s.len() {
        assert(t.drop_last() =~= s);
        assert(t.last() == (k, v));
    } else {
        let dl = s.drop_last();
        lemma_entries_to_map_insert(dl, pos, k, v);
        assert(t.drop_last() =~= dl.insert(pos, (k, v)));
        assert(t.last() == s.last());
        assert(s[s.len() - 1].0 > k);
        assert(entries_to_map(dl).insert(k, v).insert(s.last().0, s.last().1)
            =~= entries_to_map(dl).insert(s.last().0, s.last().1).insert(k, v));
    }
}

/// Replacing the value of the entry at an index overwrites exactly its key.
pub proof fn lemma_entries_to_map_update<V>(s: Seq<(u64, V)>, i: int, v: V)
    requires
        entries_sorted(s),
        0 <= i < s.len(),
    ensures
        entries_sorted(s.update(i, (s[i].0, v))),
        entries_to_map(s.update(i, (s[i].0, v))) == entries_to_map(s).insert(s[i].0, v),
    decreases s.len(),
{
    let t = s.update(i, (s[i].0, v));
    assert forall|p: int, q: int| 0 <= p < q < t.len() implies (t[p]).0 < (t[q]).0 by {
        assert(t[p].0 == s[p].0);
        assert(t[q].0 == s[q].0);
    }
    if i == s.len() - 1 {
        assert(t.drop_last() =~= s.drop_last());
        assert(entries_to_map(s.drop_last()).insert(s[i].0, s[i].1).insert(s[i].0, v)
            =~= entries_to_map(s.drop_last()).insert(s[i].0, v));
    } else {
        let dl = s.drop_last();
        lemma_entries_to_map_update(dl, i, v);
        assert(t.drop_last() =~= dl.update(i, (s[i].0, v)));
        assert(t.last() == s.last());
        assert(s[i].0 != s.last().0);
        assert(entries_to_map(dl).insert(s[i].0, v).insert(s.last().0, s.last().1)
            =~= entries_to_map(dl).insert(s.last().0, s.last().1).insert(s[i].0, v));
    }
}

/// Two sorted entry sequences denoting the same map are the same sequence:
/// the sorted representation is canonical, which is what makes the wire
/// output of a map deterministic.
pub proof fn lemma_sorted_entries_canonical<V>(s1: Seq<(u64, V)>, s2: Seq<(u64, V)>)
    requires
        entries_sorted(s1),
        entries_sorted(s2),
        entries_to_map(s1) == entries_to_map(s2),
    ensures
        s1 == s2,
    decreases s1.len(),
{
    lemma_entries_to_map_contains(s1, 0);
    if s1.len() == 0 {
        if s2.len() > 0 {
            lemma_entries_to_map_value(s2, 0);
            lemma_entries_to_map_contains(s1, s2[0].0);
        }
        assert(s1 =~= s2);
    } else {
        lemma_entries_to_map_value(s1, s1.len() - 1);
        if s2.len() == 0 {
            lemma_entries_to_map_contains(s2, s1.last().0);
        }
        lemma_entries_to_map_value(s2, s2.len() - 1);
        // The last keys agree: each is the maximum of the common domain.
        lemma_entries_to_map_contains(s2, s1.last().0);
        let i2 = choose|i: int| 0 <= i < s2.len() && (#[trigger] s2[i]).0 == s1.last().0;
        assert(s2[i2].0 <= s2.last().0);
        lemma_entries_to_map_contains(s1, s2.last().0);
        let i1 = choose|i: int| 0 <= i < s1.len() && (#[trigger] s1[i]).0 == s2.last().0;
        assert(s1[i1].0 <= s1.last().0);
        assert(s1.last().0 == s2.last().0);
        assert(s1.last().1 == s2.last().1);
        lemma_entries_to_map_drop_last(s1);
        lemma_entries_to_map_drop_last(s2);
        lemma_sorted_entries_canonical(s1.drop_last(), s2.drop_last());
        assert(s1 =~= s1.drop_last().push(s1.last()));
        assert(s2 =~= s2.drop_last().push(s2.last()));
    }
}

/// Shorter sorted key runs fit inside longer ones: if every key of `a`
/// occurs in `b`, then `a` has no more entries than `b`.
pub proof fn lemma_sorted_keys_subset_len<V, W>(a: Seq<(u64, V)>, b: Seq<(u64, W)>)
    requires
        entries_sorted(a),
        entries_sorted(b),
        forall|k: u64| #[trigger]
            entries_to_map(a).contains_key(k) ==> entries_to_map(b).contains_key(k),
    ensures
        a.len() <= b.len(),
    decreases b.len(),
{
    if a.len() > 0 {
        let ka = a[a.len() - 1].0;
        lemma_entries_to_map_value(a, a.len() - 1);
        lemma_entries_to_map_contains(b, ka);
        let j = choose|j: int| 0 <= j < b.len() && (#[trigger] b[j]).0 == ka;
        let kb = b[b.len() - 1].0;
        assert(b[j].0 <= kb);
        let a2 = a.drop_last();
        let b2 = b.drop_last();
        lemma_entries_to_map_drop_last(a);
        lemma_entries_to_map_drop_last(b);
        if ka == kb {
            assert forall|k: u64| #[trigger]
                entries_to_map(a2).contains_key(k) implies entries_to_map(b2).contains_key(k) by {}
            lemma_sorted_keys_subset_len(a2, b2);
        } else {
            assert forall|k: u64| #[trigger]
                entries_to_map(a).contains_key(k) implies entries_to_map(b2).contains_key(k) by {
                lemma_entries_to_map_contains(a, k);
                let i = choose|i: int| 0 <= i < a.len() && (#[trigger] a[i]).0 == k;
                assert(a[i].0 <= ka);
            }
            lemma_sorted_keys_subset_len(a, b2);
        }
    }
}

/// An ordered map from `u64` keys to values of type `V`.
pub struct OrdMap<V> {
    entries: Vec<(u64, V)>,
}

/// A map whose keys all occur in another has no more entries than it.
pub proof fn lemma_submap_entries_len<V, W>(a: OrdMap<V>, b: OrdMap<W>)
    requires
        a.wf(),
        b.wf(),
        forall|k: u64| #[trigger] a@.contains_key(k) ==> b@.contains_key(k),
    ensures
        a.entry_seq().len() <= b.entry_seq().len(),
{
    assert forall|k: u64| #[trigger]
        entries_to_map(a.entry_seq()).contains_key(k) implies entries_to_map(
        b.entry_seq(),
    ).contains_key(k) by {
        assert(a@.contains_key(k));
        assert(b@.contains_key(k));
    }
    lemma_sorted_keys_subset_len(a.entry_seq(), b.entry_seq());
}

/// The entries of a map with each value abstracted to its view.
pub open spec fn deep_pairs<V: View>(m: OrdMap<V>) -> Seq<(u64, <V as View>::V)> {
    m.entry_seq().map_values(|p: (u64, V)| (p.0, p.1@))
}

/// The map with each value abstracted to its view.
pub open spec fn deep_view<V: View>(m: OrdMap<V>) -> Map<u64, <V as View>::V> {
    entries_to_map(deep_pairs(m))
}

/// The deep view has the same keys as the map, and its values are the
/// views of the map's values.
pub proof fn lemma_deep_view<V: View>(m: OrdMap<V>)
    requires
        m.wf(),
    ensures
        entries_sorted(deep_pairs(m)),
        forall|k: u64| #[trigger] deep_view(m).contains_key(k) <==> m@.contains_key(k),
        forall|k: u64| m@.contains_key(k) ==> #[trigger] deep_view(m)[k] == m@[k]@,
{
    let s = m.entry_seq();
    let p = deep_pairs(m);
    assert forall|i: int, j: int| 0 <= i < j < p.len() implies (p[i]).0 < (p[j]).0 by {
        assert(p[i].0 == s[i].0);
        assert(p[j].0 == s[j].0);
    }
    assert forall|k: u64| #[trigger] deep_view(m).contains_key(k) implies m@.contains_key(k) by {
        lemma_entries_to_map_contains(p, k);
        let i = choose|i: int| 0 <= i < p.len() && (#[trigger] p[i]).0 == k;
        assert(s[i].0 == k);
        lemma_entries_to_map_contains(s, k);
    }
    assert forall|k: u64| m@.contains_key(k) implies #[trigger] deep_view(m).contains_key(k) by {
        lemma_entries_to_map_contains(s, k);
        let i = choose|i: int| 0 <= i < s.len() && (#[trigger] s[i]).0 == k;
        assert(p[i].0 == k);
        lemma_entries_to_map_contains(p, k);
    }
    assert forall|k: u64| m@.contains_key(k) implies #[trigger] deep_view(m)[k] == m@[k]@ by {
        lemma_entries_to_map_contains(s, k);
        let i = choose|i: int| 0 <= i < s.len() && (#[trigger] s[i]).0 == k;
        assert(p[i] == (s[i].0, s[i].1@));
        lemma_entries_to_map_value(s, i);
        lemma_entries_to_map_value(p, i);
        assert(deep_view(m)[k] == p[i].1);
        assert(m@[k] == s[i].1);
    }
}

impl<V> View for OrdMap<V> {
    type V = Map<u64, V>;

    /// The map the entries denote.
    open spec fn view(&self) -> Map<u64, V> {
        entries_to_map(self.entry_seq())
    }
}

impl<V> OrdMap<V> {
    /// The entries in ascending key order.
    pub closed spec fn entry_seq(self) -> Seq<(u64, V)> {
        self.entries@
    }

    /// Well-formed: keys strictly increase.
    pub open spec fn wf(self) -> bool {
        entries_sorted(self.entry_seq())
    }

    /// The entries are held in a vector, so their number is machine
    /// bounded.
    pub proof fn lemma_len_bounded(self)
        ensures
            self.entry_seq().len() <= usize::MAX,
    {
        assert(vstd::std_specs::vec::spec_vec_len(&self.entries) == self.entries@.len());
    }

    /// A key is present exactly when some entry carries it; usable from
    /// callers that walk the entries by index.
    pub proof fn lemma_contains(self, k: u64)
        ensures
            self@.contains_key(k) <==> exists|i: int|
                0 <= i < self.entry_seq().len() && (#[trigger] self.entry_seq()[i]).0 == k,
    {
        lemma_entries_to_map_contains(self.entry_seq(), k);
    }

    /// The entry at an index gives its key's value.
    pub proof fn lemma_at(self, i: int)
        requires
            self.wf(),
            0 <= i < self.entry_seq().len(),
        ensures
            self@.contains_key(self.entry_seq()[i].0),
            self@[self.entry_seq()[i].0] == self.entry_seq()[i].1,
    {
        lemma_entries_to_map_value(self.entry_seq(), i);
    }

    pub fn new() -> (r: Self)
        ensures
            r.wf(),
            r@ == Map::<u64, V>::empty(),
            r.entry_seq() == Seq::<(u64, V)>::empty(),
    {
        Self { entries: Vec::new() }
    }

    pub fn len(&self) -> (r: usize)
        ensures
            r == self.entry_seq().len(),
    {
        self.entries.len()
    }

    pub fn is_empty(&self) -> (r: bool)
        ensures
            r <==> self.entry_seq().len() == 0,
            r ==> self@ =~= Map::<u64, V>::empty(),
    {
        self.entries.is_empty()
    }

    /// Index of the first entry whose key is not below `k`.
    fn lower_bound(&self, k: u64) -> (r: usize)
        requires
            self.wf(),
        ensures
            r <= self.entry_seq().len(),
            forall|j: int| 0 <= j < r ==> (#[trigger] self.entry_seq()[j]).0 < k,
            r < self.entry_seq().len() ==> self.entry_seq()[r as int].0 >= k,
    {
        let n = self.entries.len();
        let mut i: usize = 0;
        while i < n && self.entries[i].0 < k
            invariant
                self.wf(),
                n == self.entry_seq().len(),
                i <= n,
                forall|j: int| 0 <= j < i ==> (#[trigger] self.entry_seq()[j]).0 < k,
            decreases n - i,
        {
            i = i + 1;
        }
        i
    }

    pub fn contains_key(&self, k: u64) -> (r: bool)
        requires
            self.wf(),
        ensures
            r <==> self@.contains_key(k),
    {
        self.get(k).is_some()
    }

    pub fn get(&self, k: u64) -> (r: Option<&V>)
        requires
            self.wf(),
        ensures
            r is Some <==> self@.contains_key(k),
            r matches Some(v) ==> *v == self@[k],
    {
        let i = self.lower_bound(k);
        proof {
            lemma_entries_to_map_contains(self.entry_seq(), k);
        }
        if i < self.entries.len() && self.entries[i].0 == k {
            proof {
                lemma_entries_to_map_value(self.entry_seq(), i as int);
            }
            Some(&self.entries[i].1)
        } else {
            proof {
                assert forall|j: int| 0 <= j < self.entry_seq().len() implies (
                #[trigger] self.entry_seq()[j]).0 != k by {
                    if j >= i {
                        assert(self.entry_seq()[i as int].0 <= self.entry_seq()[j].0);
                    }
                }
            }
            None
        }
    }

    /// Insert or overwrite: last writer wins on an existing key.
    pub fn insert(&mut self, k: u64, v: V)
        requires
            old(self).wf(),
        ensures
            final(self).wf(),
            final(self)@ == old(self)@.insert(k, v),
            old(self)@.contains_key(k) ==> final(self).entry_seq().len() == old(
                self,
            ).entry_seq().len(),
            !old(self)@.contains_key(k) ==> final(self).entry_seq().len() == old(
                self,
            ).entry_seq().len() + 1,
    {
        proof {
            lemma_entries_to_map_contains(self.entry_seq(), k);
        }
        let i = self.lower_bound(k);
        if i < self.entries.len() && self.entries[i].0 == k {
            let ghost s = self.entry_seq();
            self.entries.remove(i);
            self.entries.insert(i, (k, v));
            proof {
                assert(self.entry_seq() =~= s.update(i as int, (s[i as int].0, v)));
                lemma_entries_to_map_update(s, i as int, v);
            }
        } else {
            let ghost s = self.entry_seq();
            self.entries.insert(i, (k, v));
            proof {
                assert forall|j: int| i <= j < s.len() implies (#[trigger] s[j]).0 > k by {
                    assert(s[i as int].0 <= s[j].0);
                }
                lemma_entries_to_map_insert(s, i as int, k, v);
            }
        }
    }

    /// Remove a key, returning its value if it was present.
    pub fn remove(&mut self, k: u64) -> (r: Option<V>)
        requires
            old(self).wf(),
        ensures
            final(self).wf(),
            final(self)@ == old(self)@.remove(k),
            r is Some <==> old(self)@.contains_key(k),
            r matches Some(v) ==> v == old(self)@[k],
    {
        let i = self.lower_bound(k);
        proof {
            lemma_entries_to_map_contains(self.entry_seq(), k);
        }
        if i < self.entries.len() && self.entries[i].0 == k {
            let ghost s = self.entry_seq();
            proof {
                lemma_entries_to_map_value(s, i as int);
                lemma_entries_to_map_remove(s, i as int);
            }
            let (_, v) = self.entries.remove(i);
            Some(v)
        } else {
            proof {
                assert forall|j: int| 0 <= j < self.entry_seq().len() implies (
                #[trigger] self.entry_seq()[j]).0 != k by {
                    if j >= i {
                        assert(self.entry_seq()[i as int].0 <= self.entry_seq()[j].0);
                    }
                }
                assert(final(self)@ =~= old(self)@.remove(k));
            }
            None
        }
    }

    pub fn clear(&mut self)
        ensures
            final(self).wf(),
            final(self)@ == Map::<u64, V>::empty(),
            final(self).entry_seq() == Seq::<(u64, V)>::empty(),
    {
        self.entries.clear();
    }

    /// The key of the entry at an index.
    pub fn key_at(&self, i: usize) -> (r: u64)
        requires
            self.wf(),
            i < self.entry_seq().len(),
        ensures
            r == self.entry_seq()[i as int].0,
            self@.contains_key(r),
            self@[r] == self.entry_seq()[i as int].1,
    {
        proof {
            lemma_entries_to_map_value(self.entry_seq(), i as int);
        }
        self.entries[i].0
    }

    /// The value of the entry at an index.
    pub fn value_at(&self, i: usize) -> (r: &V)
        requires
            self.wf(),
            i < self.entry_seq().len(),
        ensures
            *r == self.entry_seq()[i as int].1,
            *r == self@[self.entry_seq()[i as int].0],
    {
        proof {
            lemma_entries_to_map_value(self.entry_seq(), i as int);
        }
        &self.entries[i].1
    }

    /// The largest key, if the map is not empty.
    pub fn max_key(&self) -> (r: Option<u64>)
        requires
            self.wf(),
        ensures
            r is None <==> self.entry_seq().len() == 0,
            r is None ==> forall|k: u64| !self@.contains_key(k),
            r matches Some(m) ==> self@.contains_key(m) && forall|k: u64|
                self@.contains_key(k) ==> k <= m,
    {
        let n = self.entries.len();
        if n == 0 {
            proof {
                assert forall|k: u64| !self@.contains_key(k) by {
                    lemma_entries_to_map_contains(self.entry_seq(), k);
                }
            }
            None
        } else {
            let m = self.entries[n - 1].0;
            proof {
                lemma_entries_to_map_value(self.entry_seq(), n - 1);
                assert forall|k: u64| self@.contains_key(k) implies k <= m by {
                    lemma_entries_to_map_contains(self.entry_seq(), k);
                    let i = choose|i: int|
                        0 <= i < self.entry_seq().len() && (#[trigger] self.entry_seq()[i]).0 == k;
                    assert(self.entry_seq()[i].0 <= self.entry_seq()[n - 1].0);
                }
            }
            Some(m)
        }
    }

    /// Drop every entry whose key is below `lo`; keys at or above `lo`
    /// keep their values.
    pub fn retain_ge(&mut self, lo: u64)
        requires
            old(self).wf(),
        ensures
            final(self).wf(),
            forall|k: u64| #[trigger]
                final(self)@.contains_key(k) <==> old(self)@.contains_key(k) && k >= lo,
            forall|k: u64| #[trigger]
                final(self)@.contains_key(k) ==> final(self)@[k] == old(self)@[k],
    {
        while self.entries.len() > 0 && self.entries[0].0 < lo
            invariant
                self.wf(),
                forall|k: u64| #[trigger]
                    self@.contains_key(k) ==> old(self)@.contains_key(k) && self@[k] == old(
                        self,
                    )@[k],
                forall|k: u64|
                    old(self)@.contains_key(k) && k >= lo ==> #[trigger] self@.contains_key(k),
            decreases self.entry_seq().len(),
        {
            let ghost s = self.entry_seq();
            let ghost prev = self@;
            let ghost k0 = s[0].0;
            proof {
                lemma_entries_to_map_value(s, 0);
                lemma_entries_to_map_remove(s, 0);
            }
            self.entries.remove(0);
            proof {
                assert(self@ == prev.remove(k0));
                assert(k0 < lo);
                assert forall|k: u64| #[trigger] self@.contains_key(k) implies prev.contains_key(
                    k,
                ) && self@[k] == prev[k] by {}
            }
        }
        proof {
            assert forall|k: u64| #[trigger] self@.contains_key(k) implies k >= lo by {
                lemma_entries_to_map_contains(self.entry_seq(), k);
                let i = choose|i: int|
                    0 <= i < self.entry_seq().len() && (#[trigger] self.entry_seq()[i]).0 == k;
                if self.entry_seq().len() > 0 {
                    assert(self.entry_seq()[0].0 <= self.entry_seq()[i].0);
                }
            }
        }
    }

    /// Remove and return the entry with the largest key, if any.
    pub fn pop_last(&mut self) -> (r: Option<(u64, V)>)
        requires
            old(self).wf(),
        ensures
            final(self).wf(),
            r is None <==> old(self).entry_seq().len() == 0,
            r is None ==> final(self)@ == old(self)@ && final(self).entry_seq() == old(
                self,
            ).entry_seq(),
            r matches Some(p) ==> old(self)@.contains_key(p.0) && p.1 == old(self)@[p.0]
                && final(self)@ == old(self)@.remove(p.0) && final(self).entry_seq().len() == old(
                self,
            ).entry_seq().len() - 1 && (forall|k2: u64|
                old(self)@.contains_key(k2) ==> k2 <= p.0),
    {
        let ghost s = self.entry_seq();
        match self.entries.pop() {
            Some((k, v)) => {
                proof {
                    assert(self.entry_seq() =~= s.drop_last());
                    lemma_entries_to_map_value(s, s.len() - 1);
                    lemma_entries_to_map_drop_last(s);
                    assert forall|k2: u64| old(self)@.contains_key(k2) implies k2 <= k by {
                        lemma_entries_to_map_contains(s, k2);
                        let i = choose|i: int| 0 <= i < s.len() && (#[trigger] s[i]).0 == k2;
                        assert(s[i].0 <= s[s.len() - 1].0);
                    }
                }
                Some((k, v))
            },
            None => None,
        }
    }

    /// Merge `other` into `self`, entry by entry, `other` winning on
    /// shared keys.
    pub fn merge(&mut self, other: Self)
        requires
            old(self).wf(),
            other.wf(),
        ensures
            final(self).wf(),
            final(self)@ == old(self)@.union_prefer_right(other@),
    {
        let ghost a = old(self)@;
        let ghost b = other@;
        let mut rest = other;
        loop
            invariant
                self.wf(),
                rest.wf(),
                forall|k: u64| #[trigger]
                    rest@.contains_key(k) ==> b.contains_key(k) && rest@[k] == b[k],
                self@ == a.union_prefer_right(b.remove_keys(rest@.dom())),
            ensures
                self.wf(),
                self@ == a.union_prefer_right(b),
            decreases rest.entry_seq().len(),
        {
            let ghost s = rest.entry_seq();
            let popped = rest.entries.pop();
            match popped {
                Some((k, v)) => {
                    proof {
                        assert(rest.entry_seq() =~= s.drop_last());
                        lemma_entries_to_map_value(s, s.len() - 1);
                        lemma_entries_to_map_drop_last(s);
                    }
                    self.insert(k, v);
                    proof {
                        assert(self@ =~= a.union_prefer_right(b.remove_keys(rest@.dom())));
                    }
                },
                None => {
                    proof {
                        assert(rest@ =~= Map::<u64, V>::empty());
                        assert(b.remove_keys(rest@.dom()) =~= b);
                        assert(self@ =~= a.union_prefer_right(b));
                    }
                    break ;
                },
            }
        }
    }
}

} // verus!
