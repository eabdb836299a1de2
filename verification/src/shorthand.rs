//! The shorthand index: one table from short permalink keys to
//! (version index, page id, branch) triples, kept for the primary branch and
//! rewritten wholesale on every relevant commit.

use vstd::prelude::*;

use crate::assoc::{assoc_map, lemma_assoc_contains, lemma_assoc_index, lemma_assoc_push,
    lemma_assoc_update, unique_keys};
use crate::store::Store;

verus! {

/// One resolution entry of the shorthand index.
pub struct ShortEntry {
    pub key: String,
    pub version: usize,
    pub id: String,
    pub branch: String,
}

/// What a shorthand key resolves to.
pub type ShortTarget = (int, Seq<char>, Seq<char>);

/// The whole index: unique keys, insertion order kept.
pub struct Shorthand {
    entries: Vec<ShortEntry>,
}

/// The keyed view of a sequence of entries.
pub open spec fn keyed_entries(s: Seq<ShortEntry>) -> Seq<(Seq<char>, ShortTarget)> {
    s.map_values(|e: ShortEntry| (e.key@, (e.version as int, e.id@, e.branch@)))
}

impl View for Shorthand {
    type V = Seq<(Seq<char>, ShortTarget)>;

    closed spec fn view(&self) -> Seq<(Seq<char>, ShortTarget)> {
        keyed_entries(self.entries@)
    }
}

impl Shorthand {
    /// Keys are pairwise distinct.
    pub open spec fn wf(&self) -> bool {
        unique_keys(self@)
    }

    /// The index read as a map.
    pub open spec fn map_view(&self) -> Map<Seq<char>, ShortTarget> {
        assoc_map(self@)
    }

    /// An empty index.
    pub fn empty() -> (t: Shorthand)
        ensures
            t@ == Seq::<(Seq<char>, ShortTarget)>::empty(),
            t.wf(),
    {
        let t = Shorthand { entries: Vec::new() };
        proof {
            assert(t@ =~= Seq::<(Seq<char>, ShortTarget)>::empty());
        }
        t
    }

    /// Wraps a ready-made table.
    pub fn wrap(entries: Vec<ShortEntry>) -> (t: Shorthand)
        ensures
            t@ == keyed_entries(entries@),
    {
        Shorthand { entries }
    }

    /// The position of a short key, if it is present.
    fn position(&self, key: &String) -> (r: Option<usize>)
        ensures
            match r {
                Some(i) => i < self@.len() && self@[i as int].0 == key@,
                None => forall|i: int| 0 <= i < self@.len() ==> self@[i].0 != key@,
            },
    {
        let n = self.entries.len();
        for i in 0..n
            invariant
                n == self@.len(),
                forall|j: int| 0 <= j < i ==> self@[j].0 != key@,
        {
            assert(self@[i as int].0 == self.entries@[i as int].key@);
            if self.entries[i].key.eq(key) {
                return Some(i);
            }
        }
        None
    }

    /// Looks a short key up.
    pub fn get(&self, key: &String) -> (r: Option<(usize, &String, &String)>)
        requires
            self.wf(),
        ensures
            match r {
                Some(t) => self.map_view().contains_key(key@) && (
                t.0 as int,
                t.1@,
                t.2@,
                ) == self.map_view()[key@],
                None => !self.map_view().contains_key(key@),
            },
    {
        proof {
            lemma_assoc_contains(self@, key@);
        }
        match self.position(key) {
            Some(i) => {
                proof {
                    lemma_assoc_index(self@, i as int);
                }
                let e = &self.entries[i];
                Some((e.version, &e.id, &e.branch))
            },
            None => None,
        }
    }

    /// Binds a short key, replacing any previous target.
    pub fn insert(&mut self, key: String, version: usize, id: String, branch: String)
        requires
            old(self).wf(),
        ensures
            final(self).wf(),
            final(self).map_view() == old(self).map_view().insert(
                key@,
                (version as int, id@, branch@),
            ),
    {
        proof {
            lemma_assoc_contains(self@, key@);
        }
        let found = self.position(&key);
        let entry = ShortEntry { key, version, id, branch };
        match found {
            Some(i) => {
                proof {
                    lemma_assoc_update(self@, i as int, (version as int, id@, branch@));
                }
                self.entries.remove(i);
                self.entries.insert(i, entry);
                assert(self@ =~= old(self)@.update(
                    i as int,
                    (old(self)@[i as int].0, (version as int, entry.id@, entry.branch@)),
                ));
            },
            None => {
                proof {
                    lemma_assoc_push(self@, key@, (version as int, id@, branch@));
                }
                self.entries.push(entry);
                assert(self@ =~= old(self)@.push(
                    (self@.last().0, (version as int, self@.last().1.1, self@.last().1.2)),
                ));
            },
        }
    }

    /// A copy whose view is identical.
    pub fn duplicate(&self) -> (t: Shorthand)
        ensures
            t@ == self@,
            self.wf() ==> t.wf(),
    {
        let n = self.entries.len();
        let mut entries: Vec<ShortEntry> = Vec::new();
        for i in 0..n
            invariant
                n == self.entries@.len(),
                entries@.len() == i,
                forall|j: int|
                    0 <= j < i ==> (#[trigger] entries@[j].key@, entries@[j].version, entries@[j].id@, entries@[j].branch@)
                        == (self.entries@[j].key@, self.entries@[j].version, self.entries@[j].id@, self.entries@[j].branch@),
        {
            let e = &self.entries[i];
            entries.push(
                ShortEntry {
                    key: e.key.clone(),
                    version: e.version,
                    id: e.id.clone(),
                    branch: e.branch.clone(),
                },
            );
        }
        let t = Shorthand { entries };
        assert(t@ =~= self@);
        t
    }

    /// Persists the whole table, replacing any previous index.
    pub fn write(self, store: &mut Store)
        requires
            old(store).wf(),
            self.wf(),
        ensures
            final(store).wf(),
            final(store).shorthand_view() == self@,
            final(store).kv_entries() == old(store).kv_entries(),
            final(store).log_entries() == old(store).log_entries(),
            final(store).id_counter() == old(store).id_counter(),
    {
        store.write_shorthand(self);
    }

    /// One read-modify-write round trip on the stored table: binds `key` to
    /// the given version and page id on the primary branch.
    pub fn update(store: &mut Store, key: String, version: usize, id: String)
        requires
            old(store).wf(),
        ensures
            final(store).wf(),
            final(store).shorthand_map() == old(store).shorthand_map().insert(
                key@,
                (version as int, id@, "master"@),
            ),
            final(store).kv_entries() == old(store).kv_entries(),
            final(store).log_entries() == old(store).log_entries(),
            final(store).id_counter() == old(store).id_counter(),
    {
        let mut t = store.shorthand().duplicate();
        t.insert(key, version, id, String::from_str("master"));
        t.write(store);
    }
}

} // verus!
