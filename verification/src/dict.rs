//! An insertion-ordered string dictionary.
//!
//! Pages use it for their child table and their metadata fields. Keys are
//! unique; iteration order is insertion order, which keeps every traversal of
//! the tree deterministic.

use vstd::prelude::*;

use crate::assoc::{assoc_map, key_rank, lemma_assoc_contains, lemma_assoc_index,
    lemma_assoc_push, lemma_assoc_remove, lemma_assoc_update, pairs_insert, pairs_remove,
    unique_keys};

verus! {

/// A mapping from strings to strings with unique keys and stable order.
#[derive(Debug)]
pub struct Dict {
    entries: Vec<(String, String)>,
}

impl View for Dict {
    type V = Seq<(Seq<char>, Seq<char>)>;

    closed spec fn view(&self) -> Seq<(Seq<char>, Seq<char>)> {
        self.entries@.map_values(|p: (String, String)| (p.0@, p.1@))
    }
}

impl Dict {
    /// Keys are pairwise distinct.
    pub open spec fn wf(&self) -> bool {
        unique_keys(self@)
    }

    /// The dictionary read as a map.
    pub open spec fn map_view(&self) -> Map<Seq<char>, Seq<char>> {
        assoc_map(self@)
    }

    pub fn new() -> (d: Dict)
        ensures
            d@ == Seq::<(Seq<char>, Seq<char>)>::empty(),
            d.wf(),
    {
        Dict { entries: Vec::new() }
    }

    pub fn len(&self) -> (n: usize)
        ensures
            n == self@.len(),
    {
        self.entries.len()
    }

    pub fn key_at(&self, i: usize) -> (k: &String)
        requires
            i < self@.len(),
        ensures
            k@ == self@[i as int].0,
    {
        &self.entries[i].0
    }

    pub fn value_at(&self, i: usize) -> (v: &String)
        requires
            i < self@.len(),
        ensures
            v@ == self@[i as int].1,
    {
        &self.entries[i].1
    }

    /// The position of a key, if it is present.
    fn position(&self, key: &String) -> (r: Option<usize>)
        ensures
            match r {
                Some(i) => i < self@.len() && self@[i as int].0 == key@,
                None => forall|i: int| 0 <= i < self@.len() ==> self@[i].0 != key@,
            },
    {
        let n = self.entries.len();
        for i in 0..n
            invariant
                n == self@.len(),
                forall|j: int| 0 <= j < i ==> self@[j].0 != key@,
        {
            assert(self@[i as int].0 == self.entries@[i as int].0@);
            if self.entries[i].0 == *key {
                return Some(i);
            }
        }
        None
    }

    pub fn contains_key(&self, key: &String) -> (r: bool)
        requires
            self.wf(),
        ensures
            r == self.map_view().contains_key(key@),
    {
        proof {
            lemma_assoc_contains(self@, key@);
        }
        self.position(key).is_some()
    }

    /// Looks a key up.
    pub fn get(&self, key: &String) -> (r: Option<&String>)
        requires
            self.wf(),
        ensures
            match r {
                Some(v) => self.map_view().contains_key(key@) && v@ == self.map_view()[key@],
                None => !self.map_view().contains_key(key@),
            },
    {
        proof {
            lemma_assoc_contains(self@, key@);
        }
        match self.position(key) {
            Some(i) => {
                proof {
                    lemma_assoc_index(self@, i as int);
                }
                Some(&self.entries[i].1)
            },
            None => None,
        }
    }

    /// Binds a key, replacing its value in place or appending a fresh pair.
    pub fn insert(&mut self, key: String, value: String)
        requires
            old(self).wf(),
        ensures
            final(self).wf(),
            final(self).map_view() == old(self).map_view().insert(key@, value@),
            final(self)@ == pairs_insert(old(self)@, key@, value@),
            old(self).map_view().contains_key(key@) ==> final(self)@.len() == old(self)@.len(),
            !old(self).map_view().contains_key(key@) ==> final(self)@ == old(self)@.push(
                (key@, value@),
            ),
            forall|i: int|
                0 <= i < old(self)@.len() && old(self)@[i].0 != key@ ==> final(self)@[i] == old(self)@[i],
            forall|i: int|
                0 <= i < old(self)@.len() && old(self)@[i].0 == key@ ==> final(self)@[i] == (
                key@,
                value@,
                ),
    {
        proof {
            lemma_assoc_contains(self@, key@);
        }
        match self.position(&key) {
            Some(i) => {
                proof {
                    lemma_assoc_update(self@, i as int, value@);
                }
                self.entries.remove(i);
                self.entries.insert(i, (key, value));
                assert(self@ =~= old(self)@.update(i as int, (old(self)@[i as int].0, value@)));
                proof {
                    let s = old(self)@;
                    assert(exists|j: int| 0 <= j < s.len() && s[j].0 == self@[i as int].0) by {
                        assert(s[i as int].0 == self@[i as int].0);
                    }
                    assert(key_rank(s, s[i as int].0) == i as int);
                    assert(self@ =~= pairs_insert(s, s[i as int].0, self@[i as int].1));
                }
            },
            None => {
                proof {
                    lemma_assoc_push(self@, key@, value@);
                }
                self.entries.push((key, value));
                assert(self@ =~= old(self)@.push((key@, value@)));
            },
        }
    }

    /// Unbinds a key; absent keys are left alone.
    pub fn remove(&mut self, key: &String)
        requires
            old(self).wf(),
        ensures
            final(self).wf(),
            final(self).map_view() == old(self).map_view().remove(key@),
            final(self)@ == pairs_remove(old(self)@, key@),
            old(self).map_view().contains_key(key@) ==> final(self)@ == old(self)@.remove(
                key_rank(old(self)@, key@),
            ),
            !old(self).map_view().contains_key(key@) ==> final(self)@ == old(self)@,
    {
        proof {
            lemma_assoc_contains(self@, key@);
        }
        match self.position(key) {
            Some(i) => {
                proof {
                    lemma_assoc_remove(self@, i as int);
                }
                self.entries.remove(i);
                assert(self@ =~= old(self)@.remove(i as int));
                proof {
                    let s = old(self)@;
                    assert(key_rank(s, key@) == i as int);
                }
            },
            None => {
                proof {
                    assert(!self.map_view().contains_key(key@));
                    assert(self.map_view() =~= self.map_view().remove(key@));
                }
            },
        }
    }

    /// Whether two dictionaries hold the same pairs in the same order.
    pub fn equals(&self, other: &Dict) -> (r: bool)
        ensures
            r == (self@ == other@),
    {
        let n = self.entries.len();
        if n != other.entries.len() {
            proof {
                assert(self@.len() != other@.len());
            }
            return false;
        }
        for i in 0..n
            invariant
                n == self@.len() == other@.len(),
                forall|j: int| 0 <= j < i ==> self@[j] == other@[j],
        {
            assert(self@[i as int] == (self.entries@[i as int].0@, self.entries@[i as int].1@));
            assert(other@[i as int] == (other.entries@[i as int].0@, other.entries@[i as int].1@));
            if !(self.entries[i].0 == other.entries[i].0) || !(self.entries[i].1
                == other.entries[i].1) {
                return false;
            }
        }
        proof {
            assert(self@ =~= other@);
        }
        true
    }

    /// A copy whose view is identical.
    pub fn duplicate(&self) -> (d: Dict)
        ensures
            d@ == self@,
            self.wf() ==> d.wf(),
    {
        let n = self.entries.len();
        let mut entries: Vec<(String, String)> = Vec::new();
        for i in 0..n
            invariant
                n == self.entries@.len(),
                entries@.len() == i,
                forall|j: int|
                    0 <= j < i ==> (#[trigger] entries@[j].0@, entries@[j].1@) == (
                    self.entries@[j].0@,
                    self.entries@[j].1@,
                    ),
        {
            let k = self.entries[i].0.clone();
            let v = self.entries[i].1.clone();
            entries.push((k, v));
        }
        let d = Dict { entries };
        assert(d@ =~= self@);
        d
    }
}

} // verus!
