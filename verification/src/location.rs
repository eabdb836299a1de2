//! Navigational coordinates: a branch name plus the full address path from a
//! version's root page down to the page being referenced.

use vstd::prelude::*;

use crate::errors::Error;

verus! {

/// The mathematical reading of a location.
#[verifier::ext_equal]
pub struct LocationView {
    pub branch: Seq<char>,
    pub path: Seq<Seq<char>>,
}

/// A pure coordinate: `path[0]` is the version's root address, the last
/// element is the page the location points at. A branch stub has an empty
/// path.
#[derive(Debug)]
pub struct Location {
    branch: String,
    path: Vec<String>,
}

impl View for Location {
    type V = LocationView;

    closed spec fn view(&self) -> LocationView {
        LocationView { branch: self.branch@, path: self.path.deep_view() }
    }
}

impl Location {
    /// A stub that names a branch without choosing a version.
    pub fn from_branch(branch: String) -> (r: Location)
        ensures
            r@.branch == branch@,
            r@.path == Seq::<Seq<char>>::empty(),
    {
        let r = Location { branch, path: Vec::new() };
        proof {
            assert(r@.path =~= Seq::<Seq<char>>::empty());
        }
        r
    }

    /// The root coordinate of one version of a branch.
    pub fn from_branch_and_version(branch: String, version: String) -> (r: Location)
        ensures
            r@.branch == branch@,
            r@.path == seq![version@],
    {
        let mut path: Vec<String> = Vec::new();
        path.push(version);
        let r = Location { branch, path };
        proof {
            assert(r@.path =~= seq![r.path@[0]@]);
        }
        r
    }

    /// A coordinate with its full address path.
    pub fn from_branch_and_path(branch: String, path: Vec<String>) -> (r: Location)
        ensures
            r@.branch == branch@,
            r@.path == path.deep_view(),
    {
        Location { branch, path }
    }

    /// The branch this location lives on.
    pub fn branch(&self) -> (r: &String)
        ensures
            r@ == self@.branch,
    {
        &self.branch
    }

    /// The address path from the version root to the referenced page.
    pub fn path(&self) -> (r: &Vec<String>)
        ensures
            r.deep_view() == self@.path,
    {
        &self.path
    }

    /// The version this location belongs to: the first path element.
    pub fn version(&self) -> (r: Result<&String, Error>)
        ensures
            match r {
                Ok(v) => self@.path.len() > 0 && v@ == self@.path[0],
                Err(e) => self@.path.len() == 0 && e == Error::EmptyLocation,
            },
    {
        if self.path.len() == 0 {
            Err(Error::EmptyLocation)
        } else {
            Ok(&self.path[0])
        }
    }

    /// The address of the page the location points at: the last path element.
    pub fn end(&self) -> (r: Result<&String, Error>)
        ensures
            match r {
                Ok(v) => self@.path.len() > 0 && v@ == self@.path.last(),
                Err(e) => self@.path.len() == 0 && e == Error::EmptyLocation,
            },
    {
        if self.path.len() == 0 {
            Err(Error::EmptyLocation)
        } else {
            Ok(&self.path[self.path.len() - 1])
        }
    }

    /// The parent coordinate: the path shortened by one.
    pub fn back(&self) -> (r: Result<Location, Error>)
        ensures
            match r {
                Ok(l) => self@.path.len() > 0 && l@.branch == self@.branch && l@.path == self@.path.drop_last(),
                Err(e) => self@.path.len() == 0 && e == Error::InvalidPath,
            },
    {
        if self.path.len() == 0 {
            Err(Error::InvalidPath)
        } else {
            let mut path = self.path.clone();
            let _ = path.pop();
            let r = Location { branch: self.branch.clone(), path };
            proof {
                assert(r@.path =~= self@.path.drop_last());
            }
            Ok(r)
        }
    }

    /// The coordinate of a child: the path extended by its address.
    pub fn forward(&self, address: String) -> (r: Result<Location, Error>)
        ensures
            match r {
                Ok(l) => self@.path.len() > 0 && l@.branch == self@.branch && l@.path == self@.path.push(address@),
                Err(e) => self@.path.len() == 0 && e == Error::InvalidPath,
            },
    {
        if self.path.len() == 0 {
            Err(Error::InvalidPath)
        } else {
            let mut path = self.path.clone();
            path.push(address);
            let r = Location { branch: self.branch.clone(), path };
            proof {
                assert(r@.path =~= self@.path.push(r.path@.last()@));
            }
            Ok(r)
        }
    }

    /// A copy whose view is identical.
    pub fn duplicate(&self) -> (r: Location)
        ensures
            r@ == self@,
    {
        let r = Location { branch: self.branch.clone(), path: self.path.clone() };
        proof {
            assert(r@.path =~= self@.path);
            assert(r@ =~= self@);
        }
        r
    }
}

} // verus!
