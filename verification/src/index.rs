//! The in-memory index: a mapping from each live key to the location of
//! its latest record in the log. It is a pure derived cache with no
//! persistence of its own, held as a vector of entries with pairwise
//! distinct keys and viewed as a `Map`.

use vstd::prelude::*;
use vstd::slice::slice_to_vec;

use crate::codec::bytes_eq;
use crate::types::LogIndex;

verus! {

/// The map described by a sequence of (key, location) entries, later
/// entries winning.
spec fn seq_map(s: Seq<(Vec<u8>, LogIndex)>) -> Map<Seq<u8>, LogIndex>
    decreases s.len(),
{
    if s.len() == 0 {
        Map::empty()
    } else {
        seq_map(s.drop_last()).insert(s.last().0@, s.last().1)
    }
}

proof fn lemma_seq_map_finite(s: Seq<(Vec<u8>, LogIndex)>)
    ensures
        seq_map(s).dom().finite(),
    decreases s.len(),
{
    if s.len() > 0 {
        lemma_seq_map_finite(s.drop_last());
    }
}

proof fn lemma_seq_map_contains(s: Seq<(Vec<u8>, LogIndex)>, k: Seq<u8>)
    ensures
        seq_map(s).contains_key(k) <==> exists|i: int| 0 <= i < s.len() && s[i].0@ == k,
    decreases s.len(),
{
    if s.len() > 0 {
        lemma_seq_map_contains(s.drop_last(), k);
        if s.last().0@ == k {
            assert(s[s.len() - 1].0@ == k);
        } else if seq_map(s.drop_last()).contains_key(k) {
            let i = choose|i: int| 0 <= i < s.len() - 1 && s.drop_last()[i].0@ == k;
            assert(s[i].0@ == k);
        } else {
            assert forall|i: int| 0 <= i < s.len() implies s[i].0@ != k by {
                if i < s.len() - 1 {
                    assert(s.drop_last()[i].0@ == s[i].0@);
                }
            }
        }
    }
}

/// Whether the keys of `s` are pairwise distinct.
spec fn distinct_keys(s: Seq<(Vec<u8>, LogIndex)>) -> bool {
    forall|i: int, j: int| 0 <= i < j < s.len() ==> s[i].0@ != s[j].0@
}

proof fn lemma_seq_map_at(s: Seq<(Vec<u8>, LogIndex)>, i: int)
    requires
        distinct_keys(s),
        0 <= i < s.len(),
    ensures
        seq_map(s).contains_key(s[i].0@),
        seq_map(s)[s[i].0@] == s[i].1,
    decreases s.len(),
{
    if i == s.len() - 1 {
    } else {
        assert(s.drop_last()[i] == s[i]);
        lemma_seq_map_at(s.drop_last(), i);
        assert(s[i].0@ != s.last().0@);
    }
}

proof fn lemma_seq_map_remove_at(s: Seq<(Vec<u8>, LogIndex)>, i: int)
    requires
        distinct_keys(s),
        0 <= i < s.len(),
    ensures
        seq_map(s.remove(i)) == seq_map(s).remove(s[i].0@),
    decreases s.len(),
{
    let k = s[i].0@;
    if i == s.len() - 1 {
        assert(s.remove(i) =~= s.drop_last());
        lemma_seq_map_contains(s.drop_last(), k);
        assert forall|j: int| 0 <= j < s.len() - 1 implies s.drop_last()[j].0@ != k by {
            assert(s[j].0@ == s.drop_last()[j].0@);
        }
        assert(!seq_map(s.drop_last()).contains_key(k));
        assert(seq_map(s.drop_last()).insert(k, s.last().1).remove(k) =~= seq_map(s.drop_last()));
    } else {
        let t = s.remove(i);
        assert(t.len() == s.len() - 1);
        assert(t.last() == s.last());
        assert(t.drop_last() =~= s.drop_last().remove(i));
        assert forall|a: int, b: int| 0 <= a < b < s.drop_last().len() implies s.drop_last()[a].0@
            != s.drop_last()[b].0@ by {
            assert(s.drop_last()[a] == s[a]);
            assert(s.drop_last()[b] == s[b]);
        }
        lemma_seq_map_remove_at(s.drop_last(), i);
        assert(s.drop_last()[i] == s[i]);
        assert(k != s.last().0@);
        assert(seq_map(t) == seq_map(s.drop_last().remove(i)).insert(s.last().0@, s.last().1));
        assert(seq_map(s.drop_last()).remove(k).insert(s.last().0@, s.last().1) =~= seq_map(
            s.drop_last(),
        ).insert(s.last().0@, s.last().1).remove(k));
    }
}

/// The in-memory index.
#[derive(Debug)]
pub struct IndexMap {
    entries: Vec<(Vec<u8>, LogIndex)>,
}

impl View for IndexMap {
    type V = Map<Seq<u8>, LogIndex>;

    closed spec fn view(&self) -> Map<Seq<u8>, LogIndex> {
        seq_map(self.entries@)
    }
}

impl IndexMap {
    /// The entries hold pairwise distinct keys.
    pub closed spec fn wf(&self) -> bool {
        distinct_keys(self.entries@)
    }

    /// How many entries the index holds.
    pub closed spec fn spec_num_entries(&self) -> int {
        self.entries@.len() as int
    }

    /// The key of entry `i`.
    pub closed spec fn spec_key_at(&self, i: int) -> Seq<u8> {
        self.entries@[i].0@
    }

    /// The location of entry `i`.
    pub closed spec fn spec_loc_at(&self, i: int) -> LogIndex {
        self.entries@[i].1
    }

    /// The domain of the index is always finite.
    pub proof fn lemma_finite(&self)
        ensures
            self@.dom().finite(),
    {
        lemma_seq_map_finite(self.entries@);
    }

    /// How the entries relate to the map view: each entry is one binding,
    /// the keys are pairwise distinct, and every binding has an entry.
    pub proof fn lemma_entries_view(&self)
        requires
            self.wf(),
        ensures
            forall|i: int|
                0 <= i < self.spec_num_entries() ==> self@.contains_key(#[trigger] self.spec_key_at(i))
                    && self@[self.spec_key_at(i)] == self.spec_loc_at(i),
            forall|i: int, j: int|
                0 <= i < j < self.spec_num_entries() ==> self.spec_key_at(i) != self.spec_key_at(j),
            forall|k: Seq<u8>|
                self@.contains_key(k) ==> exists|i: int|
                    0 <= i < self.spec_num_entries() && self.spec_key_at(i) == k,
            self@.dom().finite(),
    {
        lemma_seq_map_finite(self.entries@);
        assert forall|i: int| 0 <= i < self.spec_num_entries() implies self@.contains_key(
            #[trigger] self.spec_key_at(i),
        ) && self@[self.spec_key_at(i)] == self.spec_loc_at(i) by {
            lemma_seq_map_at(self.entries@, i);
        }
        assert forall|k: Seq<u8>| self@.contains_key(k) implies exists|i: int|
            0 <= i < self.spec_num_entries() && self.spec_key_at(i) == k by {
            lemma_seq_map_contains(self.entries@, k);
            let i = choose|i: int| 0 <= i < self.entries@.len() && self.entries@[i].0@ == k;
            assert(self.spec_key_at(i) == k);
        }
    }

    /// An empty index.
    pub fn new() -> (r: IndexMap)
        ensures
            r.wf(),
            r@ == Map::<Seq<u8>, LogIndex>::empty(),
            r.spec_num_entries() == 0,
    {
        IndexMap { entries: Vec::new() }
    }

    /// The position of the entry holding `key`, if one does.
    fn find(&self, key: &[u8]) -> (r: Option<usize>)
        ensures
            match r {
                Option::Some(i) => i < self.spec_num_entries() && self.spec_key_at(i as int)
                    == key@,
                Option::None => forall|j: int|
                    0 <= j < self.spec_num_entries() ==> self.spec_key_at(j) != key@,
            },
    {
        let mut i: usize = 0;
        while i < self.entries.len()
            invariant
                i <= self.entries@.len(),
                forall|j: int| 0 <= j < i ==> self.entries@[j].0@ != key@,
            decreases self.entries@.len() - i,
        {
            if bytes_eq(self.entries[i].0.as_slice(), key) {
                return Some(i);
            }
            i = i + 1;
        }
        None
    }

    /// Looks the key up.
    pub fn get(&self, key: &[u8]) -> (r: Option<LogIndex>)
        requires
            self.wf(),
        ensures
            match r {
                Option::Some(loc) => self@.contains_key(key@) && self@[key@] == loc,
                Option::None => !self@.contains_key(key@),
            },
    {
        match self.find(key) {
            Some(i) => {
                let loc = self.entries[i].1;
                proof {
                    lemma_seq_map_at(self.entries@, i as int);
                    assert(self.entries@[i as int].0@ == key@);
                    assert(loc == self.entries@[i as int].1);
                }
                Some(loc)
            },
            None => {
                proof {
                    lemma_seq_map_contains(self.entries@, key@);
                    assert forall|j: int| 0 <= j < self.entries@.len() implies self.entries@[j].0@
                        != key@ by {
                        assert(self.spec_key_at(j) != key@);
                    }
                }
                None
            },
        }
    }

    /// Removes the binding of `key`, if any.
    pub fn remove(&mut self, key: &[u8])
        requires
            old(self).wf(),
        ensures
            final(self).wf(),
            final(self)@ == old(self)@.remove(key@),
            forall|j: int|
                0 <= j < final(self).spec_num_entries() ==> final(self).spec_key_at(j) != key@,
    {
        let ghost s0 = self.entries@;
        match self.find(key) {
            Some(i) => {
                proof {
                    lemma_seq_map_remove_at(s0, i as int);
                }
                let _ = self.entries.remove(i);
                proof {
                    assert forall|a: int, b: int|
                        0 <= a < b < self.entries@.len() implies self.entries@[a].0@
                        != self.entries@[b].0@ by {
                        assert(self.entries@[a] == if a < i { s0[a] } else { s0[a + 1] });
                        assert(self.entries@[b] == if b < i { s0[b] } else { s0[b + 1] });
                    }
                    assert forall|j: int| 0 <= j < self.entries@.len() implies self.entries@[j].0@
                        != key@ by {
                        assert(self.entries@[j] == if j < i { s0[j] } else { s0[j + 1] });
                    }
                }
            },
            None => {
                proof {
                    lemma_seq_map_contains(s0, key@);
                    assert forall|j: int| 0 <= j < s0.len() implies s0[j].0@ != key@ by {
                        assert(self.spec_key_at(j) != key@);
                    }
                    assert(!seq_map(s0).contains_key(key@));
                    assert(seq_map(s0).remove(key@) =~= seq_map(s0));
                }
            },
        }
    }

    /// Binds `key` to `loc`, replacing any earlier binding.
    pub fn insert(&mut self, key: Vec<u8>, loc: LogIndex)
        requires
            old(self).wf(),
        ensures
            final(self).wf(),
            final(self)@ == old(self)@.insert(key@, loc),
    {
        self.remove(key.as_slice());
        let ghost w = *self;
        let ghost s1 = self.entries@;
        let ghost k = key@;
        self.entries.push((key, loc));
        proof {
            assert(self.entries@.drop_last() =~= s1);
            assert(seq_map(self.entries@.drop_last()) == seq_map(s1));
            assert(self.entries@.last().0@ == k);
            assert(self.entries@.last().1 == loc);
            assert(seq_map(self.entries@) == seq_map(s1).insert(k, loc));
            assert(old(self)@.remove(k).insert(k, loc) =~= old(self)@.insert(k, loc));
            assert forall|a: int, b: int|
                0 <= a < b < self.entries@.len() implies self.entries@[a].0@
                != self.entries@[b].0@ by {
                assert(self.entries@[a] == s1[a]);
                if b < self.entries@.len() - 1 {
                    assert(self.entries@[b] == s1[b]);
                    assert(w.spec_key_at(a) == s1[a].0@ && w.spec_key_at(b) == s1[b].0@);
                } else {
                    assert(self.entries@[b].0@ == k);
                    assert(w.spec_key_at(a) != k);
                }
            }
        }
    }

    /// How many entries the index holds.
    pub fn len(&self) -> (n: usize)
        ensures
            n == self.spec_num_entries(),
    {
        self.entries.len()
    }

    /// A copy of the key of entry `i`.
    pub fn key_at(&self, i: usize) -> (k: Vec<u8>)
        requires
            i < self.spec_num_entries(),
        ensures
            k@ == self.spec_key_at(i as int),
    {
        slice_to_vec(self.entries[i].0.as_slice())
    }

    /// The location of entry `i`.
    pub fn loc_at(&self, i: usize) -> (l: LogIndex)
        requires
            i < self.spec_num_entries(),
        ensures
            l == self.spec_loc_at(i as int),
    {
        self.entries[i].1
    }
}

} // verus!
