//! A coordinate-keyed table backed by a vector of entries, the storage
//! behind the terrain map, the ground items, the light field and the
//! coordinate index.  Its abstract value is a `Map<Coord, V>`; the entry
//! sequence is also exposed, so that iteration order — deterministic
//! within one table value — can appear in contracts.

use vstd::prelude::*;

use crate::hex::Coord;

verus! {

/// The finite map held by an entry sequence, later entries winning.
pub open spec fn map_of<V>(s: Seq<(Coord, V)>) -> Map<Coord, V>
    decreases s.len(),
{
    if s.len() == 0 {
        Map::empty()
    } else {
        map_of(s.drop_last()).insert(s.last().0, s.last().1)
    }
}

/// No two entries of `s` share a key.
pub open spec fn distinct_keys<V>(s: Seq<(Coord, V)>) -> bool {
    forall|i: int, j: int| 0 <= i < j < s.len() ==> (#[trigger] s[i]).0 != (#[trigger] s[j]).0
}

proof fn lemma_map_of_domain<V>(s: Seq<(Coord, V)>, k: Coord)
    ensures
        map_of(s).contains_key(k) <==> exists|i: int| 0 <= i < s.len() && (#[trigger] s[i]).0 == k,
    decreases s.len(),
{
    if s.len() > 0 {
        lemma_map_of_domain(s.drop_last(), k);
        if s.last().0 == k {
            assert(s[s.len() - 1].0 == k);
        } else if map_of(s).contains_key(k) {
            let i = choose|i: int| 0 <= i < s.drop_last().len() && (#[trigger] s.drop_last()[i]).0
                == k;
            assert(s[i].0 == k);
        } else {
            assert forall|i: int| 0 <= i < s.len() implies (#[trigger] s[i]).0 != k by {
                if i < s.len() - 1 {
                    assert(s.drop_last()[i] == s[i]);
                }
            }
        }
    }
}

proof fn lemma_map_of_index<V>(s: Seq<(Coord, V)>, i: int)
    requires
        distinct_keys(s),
        0 <= i < s.len(),
    ensures
        map_of(s).contains_key(s[i].0),
        map_of(s)[s[i].0] == s[i].1,
    decreases s.len(),
{
    lemma_map_of_domain(s, s[i].0);
    if i == s.len() - 1 {
        assert(s.last() == s[i]);
    } else {
        assert(s.drop_last()[i] == s[i]);
        lemma_map_of_index(s.drop_last(), i);
        assert(s.last().0 != s[i].0);
    }
}

proof fn lemma_map_of_update<V>(s: Seq<(Coord, V)>, i: int, v: V)
    requires
        distinct_keys(s),
        0 <= i < s.len(),
    ensures
        map_of(s.update(i, (s[i].0, v))) =~= map_of(s).insert(s[i].0, v),
    decreases s.len(),
{
    let k = s[i].0;
    let t = s.update(i, (k, v));
    if i == s.len() - 1 {
        assert(t.drop_last() =~= s.drop_last());
        assert(t.last() == (k, v));
    } else {
        assert(t.drop_last() =~= s.drop_last().update(i, (k, v)));
        assert(s.drop_last()[i] == s[i]);
        lemma_map_of_update(s.drop_last(), i, v);
        assert(t.last() == s.last());
        assert(s.last().0 != k);
    }
}

proof fn lemma_map_of_remove<V>(s: Seq<(Coord, V)>, i: int)
    requires
        distinct_keys(s),
        0 <= i < s.len(),
    ensures
        map_of(s.remove(i)) =~= map_of(s).remove(s[i].0),
    decreases s.len(),
{
    let k = s[i].0;
    if i == s.len() - 1 {
        assert(s.remove(i) =~= s.drop_last());
        lemma_map_of_domain(s.drop_last(), k);
        assert forall|j: int| 0 <= j < s.drop_last().len() implies (#[trigger] s.drop_last()[j]).0
            != k by {
            assert(s.drop_last()[j] == s[j]);
        }
        assert(!map_of(s.drop_last()).contains_key(k));
    } else {
        assert(s.remove(i).drop_last() =~= s.drop_last().remove(i));
        assert(s.drop_last()[i] == s[i]);
        lemma_map_of_remove(s.drop_last(), i);
        assert(s.remove(i).last() == s.last());
        assert(s.last().0 != k);
    }
}

proof fn lemma_map_of_finite<V>(s: Seq<(Coord, V)>)
    ensures
        map_of(s).dom().finite(),
        map_of(s).dom().len() <= s.len(),
    decreases s.len(),
{
    if s.len() > 0 {
        lemma_map_of_finite(s.drop_last());
        assert(map_of(s).dom() =~= map_of(s.drop_last()).dom().insert(s.last().0));
    }
}

/// A finite map from coordinates to values of `V`, with a deterministic
/// entry order.
#[derive(Clone, Debug)]
pub struct CoordMap<V> {
    entries: Vec<(Coord, V)>,
}

impl<V> View for CoordMap<V> {
    type V = Map<Coord, V>;

    closed spec fn view(&self) -> Map<Coord, V> {
        map_of(self.entries@)
    }
}

impl<V> CoordMap<V> {
    /// The entries in their iteration order.
    pub closed spec fn entry_seq(self) -> Seq<(Coord, V)> {
        self.entries@
    }

    /// The table is well formed: no two entries share a key.
    pub closed spec fn wf(self) -> bool {
        distinct_keys(self.entries@)
    }

    /// Each entry holds its key's value in the abstract map.
    pub proof fn lemma_entries(&self)
        requires
            self.wf(),
        ensures
            forall|i: int|
                0 <= i < self.entry_seq().len() ==> self@.contains_key(
                    (#[trigger] self.entry_seq()[i]).0,
                ) && self@[self.entry_seq()[i].0] == self.entry_seq()[i].1,
            forall|k: Coord| #[trigger]
                self@.contains_key(k) ==> exists|i: int|
                    0 <= i < self.entry_seq().len() && (#[trigger] self.entry_seq()[i]).0 == k,
    {
        assert forall|i: int| 0 <= i < self.entry_seq().len() implies self@.contains_key(
            (#[trigger] self.entry_seq()[i]).0,
        ) && self@[self.entry_seq()[i].0] == self.entry_seq()[i].1 by {
            lemma_map_of_index(self.entries@, i);
        }
        assert forall|k: Coord| #[trigger] self@.contains_key(k) implies exists|i: int|
            0 <= i < self.entry_seq().len() && (#[trigger] self.entry_seq()[i]).0 == k by {
            lemma_map_of_domain(self.entries@, k);
            let i = choose|i: int| 0 <= i < self.entries@.len() && (#[trigger] self.entries@[i]).0
                == k;
            assert(0 <= i < self.entry_seq().len() && self.entry_seq()[i].0 == k);
        }
    }

    /// The abstract map is finite, with no more keys than entries.
    pub proof fn lemma_finite(&self)
        ensures
            self@.dom().finite(),
            self@.dom().len() <= self.entry_seq().len(),
    {
        lemma_map_of_finite(self.entries@);
    }

    /// An empty table.
    pub fn new() -> (r: CoordMap<V>)
        ensures
            r@ =~= Map::<Coord, V>::empty(),
            r.entry_seq() == Seq::<(Coord, V)>::empty(),
            r.wf(),
    {
        CoordMap { entries: Vec::new() }
    }

    /// How many entries the table holds.
    pub fn entry_count(&self) -> (n: usize)
        ensures
            n == self.entry_seq().len(),
    {
        self.entries.len()
    }

    /// The entry at position `i` of the iteration order.
    pub fn entry_at(&self, i: usize) -> (e: &(Coord, V))
        requires
            i < self.entry_seq().len(),
        ensures
            *e == self.entry_seq()[i as int],
            self.wf() ==> self@.contains_key(e.0) && self@[e.0] == e.1,
    {
        proof {
            if self.wf() {
                lemma_map_of_index(self.entries@, i as int);
            }
        }
        &self.entries[i]
    }

    /// Whether the table holds the key `c`.
    pub fn contains_key(&self, c: Coord) -> (r: bool)
        requires
            self.wf(),
        ensures
            r == self@.contains_key(c),
    {
        proof {
            lemma_map_of_domain(self.entries@, c);
        }
        let n = self.entries.len();
        let mut i: usize = 0;
        while i < n
            invariant
                n == self.entries@.len(),
                0 <= i <= n,
                forall|j: int| 0 <= j < i ==> (#[trigger] self.entries@[j]).0 != c,
            decreases n - i,
        {
            if self.entries[i].0 == c {
                proof {
                    lemma_map_of_domain(self.entries@, c);
                    assert((self.entries@[i as int]).0 == c);
                }
                return true;
            }
            i += 1;
        }
        false
    }

    /// The value under the key `c`, if the table holds it.
    pub fn get(&self, c: Coord) -> (r: Option<&V>)
        requires
            self.wf(),
        ensures
            match r {
                Some(v) => self@.contains_key(c) && *v == self@[c],
                None => !self@.contains_key(c),
            },
    {
        proof {
            lemma_map_of_domain(self.entries@, c);
        }
        let n = self.entries.len();
        let mut i: usize = 0;
        while i < n
            invariant
                n == self.entries@.len(),
                self.wf(),
                0 <= i <= n,
                forall|j: int| 0 <= j < i ==> (#[trigger] self.entries@[j]).0 != c,
            decreases n - i,
        {
            if self.entries[i].0 == c {
                proof {
                    lemma_map_of_index(self.entries@, i as int);
                }
                return Some(&self.entries[i].1);
            }
            i += 1;
        }
        None
    }

    /// Puts `v` under the key `c`, replacing what the key held.
    pub fn insert(&mut self, c: Coord, v: V)
        requires
            old(self).wf(),
        ensures
            final (self)@ =~= old(self)@.insert(c, v),
            final (self).wf(),
            !old(self)@.contains_key(c) ==> final (self).entry_seq() == old(
                self,
            ).entry_seq().push((c, v)),
            old(self)@.contains_key(c) ==> exists|i: int|
                0 <= i < old(self).entry_seq().len() && (#[trigger] old(self).entry_seq()[i]).0
                    == c && final (self).entry_seq() == old(self).entry_seq().update(i, (c, v)),
    {
        proof {
            lemma_map_of_domain(self.entries@, c);
        }
        let n = self.entries.len();
        let mut i: usize = 0;
        while i < n
            invariant
                n == self.entries@.len(),
                self.wf(),
                self == old(self),
                0 <= i <= n,
                forall|j: int| 0 <= j < i ==> (#[trigger] self.entries@[j]).0 != c,
            decreases n - i,
        {
            if self.entries[i].0 == c {
                proof {
                    lemma_map_of_domain(self.entries@, c);
                    assert((old(self).entry_seq()[i as int]).0 == c);
                    assert(old(self)@.contains_key(c));
                    lemma_map_of_update(self.entries@, i as int, v);
                }
                self.entries[i] = (c, v);
                proof {
                    let j = i as int;
                    assert(0 <= j < old(self).entry_seq().len() && (old(self).entry_seq()[j]).0
                        == c && self.entry_seq() == old(self).entry_seq().update(j, (c, v)));
                }
                return ;
            }
            i += 1;
        }
        assert(!old(self)@.contains_key(c));
        self.entries.push((c, v));
        proof {
            assert(self.entries@.drop_last() =~= old(self).entries@);
            assert forall|p: int, q: int| 0 <= p < q < self.entries@.len() implies (
            #[trigger] self.entries@[p]).0 != (#[trigger] self.entries@[q]).0 by {
                if q < self.entries@.len() - 1 {
                    assert(old(self).entries@[p] == self.entries@[p]);
                    assert(old(self).entries@[q] == self.entries@[q]);
                } else {
                    assert(old(self).entries@[p] == self.entries@[p]);
                    lemma_map_of_index(old(self).entries@, p);
                }
            }
        }
    }

    /// Takes the value under the key `c` out of the table, if the table
    /// holds it.
    pub fn remove(&mut self, c: Coord) -> (r: Option<V>)
        requires
            old(self).wf(),
        ensures
            final (self)@ =~= old(self)@.remove(c),
            final (self).wf(),
            match r {
                Some(v) => old(self)@.contains_key(c) && v == old(self)@[c] && exists|i: int|
                    0 <= i < old(self).entry_seq().len() && (#[trigger] old(self).entry_seq()[i]).0
                        == c && final (self).entry_seq() == old(self).entry_seq().remove(i),
                None => !old(self)@.contains_key(c) && *final (self) == *old(self),
            },
    {
        proof {
            lemma_map_of_domain(self.entries@, c);
        }
        let n = self.entries.len();
        let mut i: usize = 0;
        while i < n
            invariant
                n == self.entries@.len(),
                self.wf(),
                self == old(self),
                0 <= i <= n,
                forall|j: int| 0 <= j < i ==> (#[trigger] self.entries@[j]).0 != c,
            decreases n - i,
        {
            if self.entries[i].0 == c {
                proof {
                    lemma_map_of_index(self.entries@, i as int);
                    lemma_map_of_remove(self.entries@, i as int);
                    assert forall|p: int, q: int|
                        0 <= p < q < self.entries@.remove(i as int).len() implies (
                    #[trigger] self.entries@.remove(i as int)[p]).0 != (#[trigger] self.entries@.remove(
                        i as int,
                    )[q]).0 by {
                        let s = self.entries@;
                        let pp = if p < i {
                            p
                        } else {
                            p + 1
                        };
                        let qq = if q < i {
                            q
                        } else {
                            q + 1
                        };
                        assert(s.remove(i as int)[p] == s[pp]);
                        assert(s.remove(i as int)[q] == s[qq]);
                    }
                }
                proof {
                    lemma_map_of_domain(self.entries@, c);
                    assert((old(self).entry_seq()[i as int]).0 == c);
                    assert(old(self)@.contains_key(c));
                }
                let e = self.entries.remove(i);
                proof {
                    let j = i as int;
                    assert(0 <= j < old(self).entry_seq().len() && (old(self).entry_seq()[j]).0
                        == c && self.entry_seq() == old(self).entry_seq().remove(j));
                }
                return Some(e.1);
            }
            i += 1;
        }
        proof {
            assert(old(self)@.remove(c) =~= old(self)@);
        }
        None
    }
}

impl<V: Copy> CoordMap<V> {
    /// A copy of the table, entry for entry.
    pub fn duplicate(&self) -> (r: CoordMap<V>)
        ensures
            r@ == self@,
            r.entry_seq() == self.entry_seq(),
            r.wf() == self.wf(),
    {
        let n = self.entries.len();
        let mut entries: Vec<(Coord, V)> = Vec::new();
        let mut i: usize = 0;
        while i < n
            invariant
                n == self.entries@.len(),
                0 <= i <= n,
                entries@ =~= self.entries@.take(i as int),
            decreases n - i,
        {
            entries.push(self.entries[i]);
            i += 1;
        }
        proof {
            assert(entries@ =~= self.entries@);
        }
        CoordMap { entries }
    }
}

} // verus!
