//! Branches: named, append-only sequences of version addresses.

use vstd::prelude::*;

use crate::errors::Error;
use crate::store::Store;

verus! {

/// The position of the first occurrence of a version address.
pub open spec fn first_occurrence(s: Seq<Seq<char>>, v: Seq<char>) -> int {
    choose|i: int| 0 <= i < s.len() && s[i] == v && forall|j: int| 0 <= j < i ==> s[j] != v
}

/// An in-memory reading of one branch: its name and its version addresses,
/// oldest first. The last element is the head.
pub struct Branch {
    pub name: String,
    pub versions: Vec<String>,
}

impl Branch {
    /// Reads the named version sequence.
    pub fn load(store: &Store, name: &String) -> (r: Result<Branch, Error>)
        requires
            store.wf(),
        ensures
            match r {
                Ok(b) => store.logs().contains_key(name@) && b.name@ == name@
                    && b.versions.deep_view() == store.logs()[name@],
                Err(e) => e == Error::BranchNotFound && !store.logs().contains_key(name@),
            },
    {
        match store.list(name) {
            Ok(vs) => {
                let versions = vs.clone();
                proof {
                    assert(versions.deep_view() =~= vs.deep_view());
                }
                Ok(Branch { name: name.clone(), versions })
            },
            Err(_) => Err(Error::BranchNotFound),
        }
    }

    /// A new in-memory branch holding this branch's history up to and
    /// including the given version; the caller persists it under its name.
    pub fn fork(&self, from_version: &String, into: String) -> (r: Result<Branch, Error>)
        ensures
            match r {
                Ok(b) => {
                    let vs = self.versions.deep_view();
                    &&& exists|i: int| 0 <= i < vs.len() && vs[i] == from_version@
                    &&& b.name@ == into@
                    &&& b.versions.deep_view() == vs.subrange(
                        0,
                        first_occurrence(vs, from_version@) + 1,
                    )
                },
                Err(e) => e == Error::NotFound && forall|i: int|
                    0 <= i < self.versions.deep_view().len()
                        ==> self.versions.deep_view()[i] != from_version@,
            },
    {
        let ghost vs = self.versions.deep_view();
        let n = self.versions.len();
        for i in 0..n
            invariant
                n == vs.len(),
                vs == self.versions.deep_view(),
                forall|j: int| 0 <= j < i ==> vs[j] != from_version@,
        {
            assert(vs[i as int] == self.versions@[i as int]@);
            if self.versions[i].eq(from_version) {
                let mut versions = self.versions.clone();
                proof {
                    assert(versions.deep_view() =~= vs);
                }
                versions.truncate(i + 1);
                proof {
                    let k = first_occurrence(vs, from_version@);
                    assert(0 <= k < vs.len() && vs[k] == from_version@ && forall|j: int|
                        0 <= j < k ==> vs[j] != from_version@) by {
                        assert(0 <= i < vs.len() && vs[i as int] == from_version@ && forall|
                            j: int,
                        | 0 <= j < i ==> vs[j] != from_version@);
                    }
                    assert(k == i as int);
                    assert(versions.deep_view() =~= vs.subrange(0, i + 1));
                }
                return Ok(Branch { name: into, versions });
            }
        }
        Err(Error::NotFound)
    }
}

} // verus!
