//! The controller: exploration and mutation of the branched page tree, all
//! built on one copy-on-write `commit` primitive with head-only optimistic
//! concurrency.

use vstd::prelude::*;

use crate::assoc::{assoc_map, key_rank, lemma_assoc_contains, lemma_assoc_index,
    lemma_pairs_insert_map, pairs_insert, pairs_remove, unique_keys};
use crate::branch::{first_occurrence, Branch};
use crate::content::Content;
use crate::dict::Dict;
use crate::errors::Error;
use crate::location::{Location, LocationView};
use crate::page::{spec_short, Page, PageView};
use crate::shorthand::{ShortEntry, Shorthand, ShortTarget};
use crate::store::{blob_address, Blob, BlobView, Store};

verus! {

/// Every address along a path resolves to a stored page.
pub open spec fn path_loads(s: Store, path: Seq<Seq<char>>) -> bool {
    forall|i: int| 0 <= i < path.len() ==> s.has_node(#[trigger] path[i])
}

/// The page at `a` lists the page at `b` as a child, under `b`'s id.
pub open spec fn child_link(s: Store, a: Seq<char>, b: Seq<char>) -> bool {
    assoc_map(s.node_at(a).children).contains_key(s.node_at(b).id) && assoc_map(
        s.node_at(a).children,
    )[s.node_at(b).id] == b
}

/// A path is a real root-to-node chain: each page is a child of the previous
/// one.
pub open spec fn linked(s: Store, path: Seq<Seq<char>>) -> bool {
    path_loads(s, path) && forall|i: int|
        0 < i < path.len() ==> child_link(s, path[i - 1], #[trigger] path[i])
}

/// The pages along a path.
pub open spec fn loaded_pages(s: Store, path: Seq<Seq<char>>) -> Seq<PageView> {
    Seq::new(path.len(), |i: int| s.node_at(path[i]))
}

/// The version at `path[0]` is the branch's head.
pub open spec fn head_ok(s: Store, branch: Seq<char>, path: Seq<Seq<char>>) -> bool {
    path.len() > 0 && s.logs().contains_key(branch) && s.logs()[branch].len() > 0 && path[0]
        == s.logs()[branch].last()
}

/// Lists all registered branches, as location stubs.
pub fn branches(store: &Store) -> (r: Result<Vec<Location>, Error>)
    requires
        store.wf(),
    ensures
        match r {
            Ok(ls) => store.logs().contains_key("hrdb"@) && ls.len() == store.logs()["hrdb"@].len()
                && forall|i: int|
                0 <= i < ls.len() ==> (#[trigger] ls@[i])@.branch == store.logs()["hrdb"@][i]
                    && ls@[i]@.path.len() == 0,
            Err(e) => e == Error::BranchNotFound && !store.logs().contains_key("hrdb"@),
        },
{
    let registry = String::from_str("hrdb");
    let names = match store.list(&registry) {
        Ok(v) => v,
        Err(_) => {
            return Err(Error::BranchNotFound);
        },
    };
    let n = names.len();
    let mut ls: Vec<Location> = Vec::new();
    for i in 0..n
        invariant
            n == names@.len(),
            names.deep_view() == store.logs()["hrdb"@],
            ls@.len() == i,
            forall|j: int|
                0 <= j < i ==> (#[trigger] ls@[j])@.branch == store.logs()["hrdb"@][j]
                    && ls@[j]@.path.len() == 0,
    {
        ls.push(Location::from_branch(names[i].clone()));
    }
    Ok(ls)
}

/// Lists all versions of a location's branch, oldest first.
pub fn versions(store: &Store, location: &Location) -> (r: Result<Vec<Location>, Error>)
    requires
        store.wf(),
    ensures
        match r {
            Ok(ls) => store.logs().contains_key(location@.branch) && ls.len() == store.logs()[location@.branch].len()
                && forall|i: int|
                0 <= i < ls.len() ==> (#[trigger] ls@[i])@.branch == location@.branch && ls@[i]@.path
                    =~= seq![store.logs()[location@.branch][i]],
            Err(e) => e == Error::BranchNotFound && !store.logs().contains_key(location@.branch),
        },
{
    let vs = match store.list(location.branch()) {
        Ok(v) => v,
        Err(_) => {
            return Err(Error::BranchNotFound);
        },
    };
    let n = vs.len();
    let mut ls: Vec<Location> = Vec::new();
    for i in 0..n
        invariant
            n == vs@.len(),
            vs.deep_view() == store.logs()[location@.branch],
            ls@.len() == i,
            forall|j: int|
                0 <= j < i ==> (#[trigger] ls@[j])@.branch == location@.branch && ls@[j]@.path
                    =~= seq![store.logs()[location@.branch][j]],
    {
        ls.push(Location::from_branch_and_version(location.branch().clone(), vs[i].clone()));
    }
    Ok(ls)
}

/// The branch's newest version.
pub fn head(store: &Store, location: &Location) -> (r: Result<Location, Error>)
    requires
        store.wf(),
    ensures
        match r {
            Ok(l) => store.logs().contains_key(location@.branch) && store.logs()[location@.branch].len() > 0
                && l@.branch == location@.branch && l@.path =~= seq![
                store.logs()[location@.branch].last(),
            ],
            Err(e) => e == Error::BranchNotFound && !store.logs().contains_key(location@.branch)
                || e == Error::NoVersions && store.logs().contains_key(location@.branch)
                && store.logs()[location@.branch].len() == 0,
        },
{
    let vs = match store.list(location.branch()) {
        Ok(v) => v,
        Err(_) => {
            return Err(Error::BranchNotFound);
        },
    };
    if vs.len() == 0 {
        return Err(Error::NoVersions);
    }
    let v = vs[vs.len() - 1].clone();
    assert(v@ == store.logs()[location@.branch].last());
    Ok(Location::from_branch_and_version(location.branch().clone(), v))
}

/// The root coordinate of the version a location belongs to.
pub fn root(location: &Location) -> (r: Result<Location, Error>)
    ensures
        match r {
            Ok(l) => location@.path.len() > 0 && l@.branch == location@.branch && l@.path =~= seq![
                location@.path[0],
            ],
            Err(e) => e == Error::EmptyLocation && location@.path.len() == 0,
        },
{
    let version = match location.version() {
        Ok(v) => v.clone(),
        Err(e) => {
            return Err(e);
        },
    };
    Ok(Location::from_branch_and_version(location.branch().clone(), version))
}

/// One location per child of the referenced page, in table order.
pub fn children(store: &Store, location: &Location) -> (r: Result<Vec<Location>, Error>)
    requires
        store.wf(),
    ensures
        match r {
            Ok(ls) => location@.path.len() > 0 && store.has_node(location@.path.last()) && {
                let ch = store.node_at(location@.path.last()).children;
                ls.len() == ch.len() && forall|i: int|
                    0 <= i < ls.len() ==> (#[trigger] ls@[i])@.branch == location@.branch
                        && ls@[i]@.path == location@.path.push(ch[i].1)
            },
            Err(e) => {
                ||| e == Error::EmptyLocation && location@.path.len() == 0
                ||| e == Error::NotFound && location@.path.len() > 0 && !store.blobs().contains_key(
                    location@.path.last(),
                )
                ||| e == Error::CorruptPage && location@.path.len() > 0
                    && store.blobs().contains_key(location@.path.last())
                    && !(store.blobs()[location@.path.last()] is Node)
            },
        },
{
    let end = match location.end() {
        Ok(v) => v,
        Err(e) => {
            return Err(e);
        },
    };
    let page = match store.read(end) {
        Ok(Blob::Node(p)) => p,
        Ok(Blob::Text(_)) => {
            return Err(Error::CorruptPage);
        },
        Err(e) => {
            return Err(e);
        },
    };
    let n = page.children.len();
    let mut ls: Vec<Location> = Vec::new();
    for i in 0..n
        invariant
            n == page@.children.len(),
            page@ == store.node_at(location@.path.last()),
            location@.path.len() > 0,
            ls@.len() == i,
            forall|j: int|
                0 <= j < i ==> (#[trigger] ls@[j])@.branch == location@.branch && ls@[j]@.path
                    == location@.path.push(page@.children[j].1),
    {
        let addr = page.children.value_at(i).clone();
        match location.forward(addr) {
            Ok(l) => {
                ls.push(l);
            },
            Err(_) => {
                proof {
                    assert(false);
                }
                return Err(Error::InvalidPath);
            },
        }
    }
    Ok(ls)
}

/// What descending from the end of `path` by the given child ids yields:
/// the extended path, or the first failure.
pub open spec fn spec_descend(s: Store, path: Seq<Seq<char>>, ids: Seq<Seq<char>>) -> Result<
    Seq<Seq<char>>,
    Error,
>
    decreases ids.len(),
{
    if ids.len() == 0 {
        Ok(path)
    } else {
        let a = path.last();
        if !s.blobs().contains_key(a) {
            Err(Error::NotFound)
        } else if !(s.blobs()[a] is Node) {
            Err(Error::CorruptPage)
        } else {
            let ch = assoc_map(s.node_at(a).children);
            if !ch.contains_key(ids[0]) {
                Err(Error::ChildNotFound)
            } else {
                spec_descend(s, path.push(ch[ids[0]]), ids.drop_first())
            }
        }
    }
}

/// Resolves an explicit id path, root first; the first id names the root
/// itself and is skipped.
pub fn locate(store: &Store, version: &Location, ids: &Vec<String>) -> (r: Result<Location, Error>)
    requires
        store.wf(),
        ids.deep_view().len() >= 1,
    ensures
        match r {
            Ok(l) => version@.path.len() > 0 && l@.branch == version@.branch && Ok::<_, Error>(
                l@.path,
            ) == spec_descend(
                *store,
                seq![version@.path[0]],
                ids.deep_view().drop_first(),
            ),
            Err(e) => {
                ||| e == Error::EmptyLocation && version@.path.len() == 0
                ||| version@.path.len() > 0 && Err::<Seq<Seq<char>>, _>(e) == spec_descend(
                    *store,
                    seq![version@.path[0]],
                    ids.deep_view().drop_first(),
                )
            },
        },
{
    let ghost idsv = ids.deep_view().drop_first();
    let first = match version.version() {
        Ok(v) => v.clone(),
        Err(e) => {
            return Err(e);
        },
    };
    let mut path: Vec<String> = Vec::new();
    path.push(first);
    assert(path.deep_view() =~= seq![version@.path[0]]);
    proof {
        assert(idsv.skip(0) =~= idsv);
    }
    let n = ids.len();
    for k in 1..n
        invariant
            n == ids@.len(),
            idsv == ids.deep_view().drop_first(),
            idsv.len() == n - 1,
            store.wf(),
            version@.path.len() > 0,
            path.deep_view().len() > 0,
            spec_descend(*store, path.deep_view(), idsv.skip(k - 1)) == spec_descend(
                *store,
                seq![version@.path[0]],
                idsv,
            ),
    {
        let ghost rem = idsv.skip(k - 1);
        proof {
            assert(rem.len() > 0);
            assert(rem[0] == ids.deep_view()[k as int]);
            assert(rem.drop_first() =~= idsv.skip(k as int));
        }
        let a = &path[path.len() - 1];
        assert(a@ == path.deep_view().last());
        let page = match store.read(a) {
            Ok(Blob::Node(p)) => p,
            Ok(Blob::Text(_)) => {
                proof {
                    assert(spec_descend(*store, path.deep_view(), rem) == Err::<
                        Seq<Seq<char>>,
                        Error,
                    >(Error::CorruptPage));
                }
                return Err(Error::CorruptPage);
            },
            Err(e) => {
                proof {
                    assert(spec_descend(*store, path.deep_view(), rem) == Err::<
                        Seq<Seq<char>>,
                        Error,
                    >(Error::NotFound));
                }
                return Err(e);
            },
        };
        proof {
            store.lemma_node_wf(path.deep_view().last());
        }
        assert(page@ == store.node_at(path.deep_view().last()));
        let next = match page.children.get(&ids[k]) {
            Some(v) => v.clone(),
            None => {
                proof {
                    assert(ids@[k as int]@ == rem[0]);
                    assert(spec_descend(*store, path.deep_view(), rem) == Err::<
                        Seq<Seq<char>>,
                        Error,
                    >(Error::ChildNotFound));
                }
                return Err(Error::ChildNotFound);
            },
        };
        proof {
            assert(ids@[k as int]@ == rem[0]);
            assert(next@ == assoc_map(store.node_at(path.deep_view().last()).children)[rem[0]]);
        }
        let ghost prev = path.deep_view();
        path.push(next);
        proof {
            assert(path.deep_view() =~= prev.push(
                assoc_map(store.node_at(prev.last()).children)[rem[0]],
            ));
            assert(spec_descend(*store, prev, rem) == spec_descend(
                *store,
                path.deep_view(),
                rem.drop_first(),
            ));
        }
    }
    proof {
        assert(idsv.skip(n - 1) =~= Seq::<Seq<char>>::empty());
    }
    Ok(Location::from_branch_and_path(version.branch().clone(), path))
}

/// The links beyond position `k` of a path are real parent-child edges.
pub open spec fn linked_from(s: Store, path: Seq<Seq<char>>, k: int) -> bool {
    forall|i: int|
        k < i < path.len() ==> child_link(s, path[i - 1], #[trigger] path[i]) && s.has_node(
            path[i],
        )
}

/// Some page carrying the id is reachable from `root` along real
/// parent-child links.
pub open spec fn reaches_id(s: Store, root: Seq<char>, id: Seq<char>) -> bool {
    exists|p: Seq<Seq<char>>|
        p.len() > 0 && p[0] == root && linked(s, p) && s.node_at(p.last()).id == id
}

/// Depth-first search below the end of `location`, later children first.
fn search_subtree(store: &Store, location: Location, id: &String) -> (r: Option<Location>)
    requires
        store.wf(),
        location@.path.len() > 0,
        store.has_node(location@.path.last()),
    ensures
        match r {
            Some(l) => l@.branch == location@.branch && l@.path.len() >= location@.path.len()
                && l@.path.subrange(0, location@.path.len() as int) == location@.path
                && linked_from(*store, l@.path, location@.path.len() - 1) && store.has_node(
                l@.path.last(),
            ) && store.node_at(l@.path.last()).id == id@,
            None => !reaches_id(*store, location@.path.last(), id@),
        },
    decreases store.rank(location@.path.last()),
{
    let ghost a = location@.path.last();
    let end = match location.end() {
        Ok(v) => v,
        Err(_) => {
            proof {
                assert(false);
            }
            return None;
        },
    };
    let page = match store.read(end) {
        Ok(Blob::Node(p)) => p,
        Ok(Blob::Text(_)) => {
            proof {
                assert(false);
            }
            return None;
        },
        Err(_) => {
            proof {
                assert(false);
            }
            return None;
        },
    };
    if page.id.eq(id) {
        let r = location.duplicate();
        proof {
            assert(r@.path.subrange(0, r@.path.len() as int) =~= r@.path);
        }
        return Some(r);
    }
    let n = page.children.len();
    let mut k = n;
    while k > 0
        invariant
            store.wf(),
            location@.path.len() > 0,
            store.has_node(a),
            a == location@.path.last(),
            k <= n,
            n == page@.children.len(),
            page@ == store.node_at(a),
            page@.id != id@,
            forall|m: int|
                k <= m < n ==> !reaches_id(*store, (#[trigger] page@.children[m]).1, id@),
        decreases k,
    {
        k = k - 1;
        proof {
            store.lemma_node_children(a, k as int);
        }
        let addr = page.children.value_at(k).clone();
        let child = match location.forward(addr) {
            Ok(l) => l,
            Err(_) => {
                proof {
                    assert(false);
                }
                return None;
            },
        };
        match search_subtree(store, child, id) {
            Some(l) => {
                proof {
                    let base = location@.path.len() as int;
                    let cpath = location@.path.push(page@.children[k as int].1);
                    assert(l@.path.subrange(0, base + 1) == cpath);
                    assert(l@.path.subrange(0, base) =~= location@.path);
                    assert(l@.path[base] == cpath.last());
                    assert(l@.path[base - 1] == a) by {
                        assert(cpath[base - 1] == location@.path[base - 1]);
                    }
                    store.lemma_node_wf(a);
                    lemma_assoc_index(store.node_at(a).children, k as int);
                    assert(child_link(*store, a, l@.path[base]));
                }
                return Some(l);
            },
            None => {},
        }
    }
    proof {
        if reaches_id(*store, a, id@) {
            let p = choose|p: Seq<Seq<char>>|
                p.len() > 0 && p[0] == a && linked(*store, p) && store.node_at(p.last()).id
                    == id@;
            if p.len() == 1 {
                assert(p.last() == a);
                assert(false);
            } else {
                assert(child_link(*store, p[0], p[1]));
                let ch = store.node_at(a).children;
                store.lemma_node_wf(a);
                lemma_assoc_contains(ch, store.node_at(p[1]).id);
                let m = choose|m: int| 0 <= m < ch.len() && ch[m].0 == store.node_at(p[1]).id;
                lemma_assoc_index(ch, m);
                assert(ch[m].1 == p[1]);
                let q = p.drop_first();
                assert(q.len() > 0 && q[0] == p[1]);
                assert(path_loads(*store, q)) by {
                    assert forall|i: int| 0 <= i < q.len() implies store.has_node(
                        #[trigger] q[i],
                    ) by {
                        assert(q[i] == p[i + 1]);
                    }
                }
                assert(linked(*store, q)) by {
                    assert forall|i: int| 0 < i < q.len() implies child_link(
                        *store,
                        q[i - 1],
                        #[trigger] q[i],
                    ) by {
                        assert(q[i] == p[i + 1] && q[i - 1] == p[i]);
                        assert(child_link(*store, p[i], p[i + 1]));
                    }
                }
                assert(store.node_at(q.last()).id == id@) by {
                    assert(q.last() == p.last());
                }
                assert(reaches_id(*store, ch[m].1, id@));
                assert(false);
            }
        }
    }
    None
}

/// Finds the page with the given stable id in a version's tree, by
/// depth-first search that visits the most recently listed child first.
pub fn locate_id(store: &Store, version: &Location, id: &String) -> (r: Result<Location, Error>)
    requires
        store.wf(),
    ensures
        match r {
            Ok(l) => version@.path.len() > 0 && l@.branch == version@.branch && l@.path.len() >= 1
                && l@.path[0] == version@.path[0] && linked(*store, l@.path) && store.node_at(
                l@.path.last(),
            ).id == id@,
            Err(e) => {
                ||| e == Error::EmptyLocation && version@.path.len() == 0
                ||| e == Error::NotFound && version@.path.len() > 0
                    && !store.blobs().contains_key(version@.path[0])
                ||| e == Error::CorruptPage && version@.path.len() > 0
                    && store.blobs().contains_key(version@.path[0]) && !(store.blobs()[version@.path[0]] is Node)
                ||| e == Error::PageNotFound && version@.path.len() > 0 && store.has_node(
                    version@.path[0],
                ) && !reaches_id(*store, version@.path[0], id@)
            },
        },
{
    let start = match root(version) {
        Ok(l) => l,
        Err(e) => {
            return Err(e);
        },
    };
    let first = match start.end() {
        Ok(v) => v,
        Err(_) => {
            proof {
                assert(false);
            }
            return Err(Error::EmptyLocation);
        },
    };
    match store.read(first) {
        Ok(Blob::Node(_)) => {},
        Ok(Blob::Text(_)) => {
            return Err(Error::CorruptPage);
        },
        Err(e) => {
            return Err(e);
        },
    }
    match search_subtree(store, start, id) {
        Some(l) => {
            proof {
                assert(l@.path[0] == version@.path[0]) by {
                    assert(l@.path.subrange(0, 1)[0] == l@.path[0]);
                }
                assert(linked(*store, l@.path));
            }
            Ok(l)
        },
        None => Err(Error::PageNotFound),
    }
}

/// The rewritten page at level `i` of a commit: the leaf becomes `updated`;
/// every ancestor re-points the old child's id at the child's new address.
/// Everything else — every sibling subtree — is carried over unchanged.
pub open spec fn new_page_at(pages: Seq<PageView>, updated: PageView, i: int) -> PageView
    decreases pages.len() - i,
{
    if i >= pages.len() - 1 {
        updated
    } else {
        let child = new_page_at(pages, updated, i + 1);
        PageView {
            children: pairs_insert(
                pages[i].children,
                pages[i + 1].id,
                blob_address(BlobView::Node(child)),
            ),
            ..pages[i]
        }
    }
}

/// The address the rewritten page at level `i` is stored under.
pub open spec fn new_addr_at(pages: Seq<PageView>, updated: PageView, i: int) -> Seq<char> {
    blob_address(BlobView::Node(new_page_at(pages, updated, i)))
}

/// The shorthand index after one entry per ancestor page has been folded in.
pub open spec fn fold_shorts(
    t: Map<Seq<char>, ShortTarget>,
    pages: Seq<PageView>,
    ver: int,
) -> Map<Seq<char>, ShortTarget>
    decreases pages.len(),
{
    if pages.len() == 0 {
        t
    } else {
        fold_shorts(
            t.insert(spec_short(pages[0].title), (ver, pages[0].id, "master"@)),
            pages.drop_first(),
            ver,
        )
    }
}

proof fn lemma_fold_push(t: Map<Seq<char>, ShortTarget>, pages: Seq<PageView>, p: PageView, ver: int)
    ensures
        fold_shorts(t, pages.push(p), ver) == fold_shorts(t, pages, ver).insert(
            spec_short(p.title),
            (ver, p.id, "master"@),
        ),
    decreases pages.len(),
{
    let t1 = t.insert(spec_short(pages.push(p)[0].title), (ver, pages.push(p)[0].id, "master"@));
    assert(fold_shorts(t, pages.push(p), ver) == fold_shorts(t1, pages.push(p).drop_first(), ver));
    if pages.len() == 0 {
        assert(pages.push(p)[0] == p);
        assert(pages.push(p).drop_first() =~= Seq::<PageView>::empty());
        assert(fold_shorts(t1, Seq::<PageView>::empty(), ver) == t1);
    } else {
        assert(pages.push(p)[0] == pages[0]);
        assert(pages.push(p).drop_first() =~= pages.drop_first().push(p));
        lemma_fold_push(
            t.insert(spec_short(pages[0].title), (ver, pages[0].id, "master"@)),
            pages.drop_first(),
            p,
            ver,
        );
    }
}

/// What a successful commit left behind: the branch gained exactly one new
/// head version, the rewritten pages of the path stand in the store under
/// their new addresses, and the shorthand index was brought up to date.
pub open spec fn commit_wrote(
    pre: Store,
    post: Store,
    br: Seq<char>,
    path: Seq<Seq<char>>,
    uv: PageView,
) -> bool {
    let lp = loaded_pages(pre, path);
    let ver = pre.logs()[br].len() as int;
    &&& post.logs() == pre.logs().insert(br, pre.logs()[br].push(new_addr_at(lp, uv, 0)))
    &&& forall|i: int|
        0 <= i < path.len() ==> post.blobs().contains_key(#[trigger] new_addr_at(lp, uv, i))
            && post.blobs()[new_addr_at(lp, uv, i)] == BlobView::Node(new_page_at(lp, uv, i))
    &&& (br == "master"@ ==> post.shorthand_map() == fold_shorts(
        pre.shorthand_map(),
        lp,
        ver,
    ).insert(spec_short(uv.title), (ver, uv.id, "master"@)))
    &&& (br != "master"@ ==> post.shorthand_view() == pre.shorthand_view())
}

/// A commit's writes can clash only with a genuinely colliding digest: some
/// rewritten page's address is already bound to a different blob, or two
/// distinct rewritten pages share one address.
pub open spec fn chain_clash(
    m: Map<Seq<char>, BlobView>,
    lp: Seq<PageView>,
    uv: PageView,
) -> bool {
    ||| exists|i: int|
        0 <= i < lp.len() && m.contains_key(#[trigger] new_addr_at(lp, uv, i)) && m[new_addr_at(
            lp,
            uv,
            i,
        )] != BlobView::Node(new_page_at(lp, uv, i))
    ||| exists|i: int, j: int|
        0 <= i < j < lp.len() && #[trigger] new_addr_at(lp, uv, i) == #[trigger] new_addr_at(
            lp,
            uv,
            j,
        ) && new_page_at(lp, uv, i) != new_page_at(lp, uv, j)
}

/// The central write primitive: a copy-on-write rewrite of the path from the
/// version root to the page being replaced, committed as one new head
/// version. Only the head may be committed against; stale writes are
/// rejected.
#[verifier::rlimit(100)]
fn commit(store: &mut Store, location: &Location, updated: Page) -> (r: Result<(), Error>)
    requires
        old(store).wf(),
        updated.wf(),
        old(store).can_write(BlobView::Node(updated@)),
        path_loads(*old(store), location@.path) && location@.path.len() > 0 ==> old(store).node_at(location@.path.last()).id == updated@.id,
    ensures
        final(store).wf(),
        final(store).id_counter() == old(store).id_counter(),
        old(store).kv_entries().is_prefix_of(final(store).kv_entries()),
        r is Err ==> final(store).log_entries() == old(store).log_entries(),
        location@.path.len() == 0 ==> r == Err::<(), Error>(Error::EmptyLocation),
        location@.path.len() > 0 && !old(store).logs().contains_key(location@.branch) ==> r
            == Err::<(), Error>(Error::BranchNotFound),
        location@.path.len() > 0 && old(store).logs().contains_key(location@.branch) && old(store).logs()[location@.branch].len() == 0 ==> r == Err::<(), Error>(Error::NoVersions),
        location@.path.len() > 0 && old(store).logs().contains_key(location@.branch) && old(store).logs()[location@.branch].len() > 0 && location@.path[0] != old(store).logs()[location@.branch].last() ==> r == Err::<(), Error>(Error::StaleVersion),
        r == Err::<(), Error>(Error::StaleVersion) ==> !head_ok(
            *old(store),
            location@.branch,
            location@.path,
        ),
        head_ok(*old(store), location@.branch, location@.path) && !path_loads(
            *old(store),
            location@.path,
        ) ==> (r == Err::<(), Error>(Error::NotFound) || r == Err::<(), Error>(Error::CorruptPage)),
        head_ok(*old(store), location@.branch, location@.path) && path_loads(
            *old(store),
            location@.path,
        ) ==> (r is Ok || r == Err::<(), Error>(Error::AddressCollision)),
        r is Ok ==> head_ok(*old(store), location@.branch, location@.path) && path_loads(
            *old(store),
            location@.path,
        ) && commit_wrote(*old(store), *final(store), location@.branch, location@.path, updated@),
        r == Err::<(), Error>(Error::AddressCollision) ==> head_ok(
            *old(store),
            location@.branch,
            location@.path,
        ) && path_loads(*old(store), location@.path) && chain_clash(
            old(store).blobs(),
            loaded_pages(*old(store), location@.path),
            updated@,
        ),
        head_ok(*old(store), location@.branch, location@.path) && path_loads(
            *old(store),
            location@.path,
        ) && !chain_clash(
            old(store).blobs(),
            loaded_pages(*old(store), location@.path),
            updated@,
        ) ==> r is Ok,
{
    let ghost pre = *old(store);
    let ghost pathv = location@.path;
    let ghost br = location@.branch;
    proof {
        assert(pre.kv_entries() =~= pre.kv_entries().subrange(0, pre.kv_entries().len() as int));
        assert(pre.kv_entries().is_prefix_of(pre.kv_entries()));
    }
    let branch = location.branch();
    match location.version() {
        Ok(_) => {},
        Err(e) => {
            return Err(e);
        },
    }
    let (ver_no, head_addr) = match store.list(branch) {
        Ok(vs) => {
            if vs.len() == 0 {
                return Err(Error::NoVersions);
            }
            (vs.len(), vs[vs.len() - 1].clone())
        },
        Err(_) => {
            return Err(Error::BranchNotFound);
        },
    };
    let version = match location.version() {
        Ok(v) => v,
        Err(e) => {
            proof {
                assert(false);
            }
            return Err(e);
        },
    };
    if !version.eq(&head_addr) {
        return Err(Error::StaleVersion);
    }
    assert(head_ok(pre, br, pathv));
    let master = String::from_str("master");
    let on_master = branch.eq(&master);
    let path = location.path();
    let n = path.len();
    let mut pages: Vec<Page> = Vec::new();
    let ghost lp = loaded_pages(pre, pathv);
    for i in 0..n
        invariant
            pre == *old(store),
            pathv == location@.path,
            br == location@.branch,
            pre.wf(),
            store.wf(),
            pre.kv_entries().is_prefix_of(store.kv_entries()),
            n == path@.len(),
            n == pathv.len(),
            n > 0,
            path.deep_view() == pathv,
            lp == loaded_pages(pre, pathv),
            store.kv_entries() == pre.kv_entries(),
            store.log_entries() == pre.log_entries(),
            store.id_counter() == pre.id_counter(),
            head_ok(pre, br, pathv),
            ver_no == pre.logs()[br].len(),
            on_master == (br == "master"@),
            forall|j: int| 0 <= j < i ==> pre.has_node(#[trigger] pathv[j]),
            pages@.len() == i,
            forall|j: int| 0 <= j < i ==> (#[trigger] pages@[j])@ == lp[j] && pages@[j].wf(),
            on_master ==> store.shorthand_map() == fold_shorts(
                pre.shorthand_map(),
                lp.take(i as int),
                ver_no as int,
            ),
            !on_master ==> store.shorthand_view() == pre.shorthand_view(),
    {
        assert(path@[i as int]@ == pathv[i as int]);
        let page = match store.read(&path[i]) {
            Ok(Blob::Node(p)) => p.duplicate(),
            Ok(Blob::Text(_)) => {
                return Err(Error::CorruptPage);
            },
            Err(_) => {
                return Err(Error::NotFound);
            },
        };
        proof {
            store.lemma_node_wf(pathv[i as int]);
            assert(page@ == lp[i as int]);
        }
        if on_master {
            let key = page.short();
            let pid = page.id().clone();
            proof {
                lemma_fold_push(pre.shorthand_map(), lp.take(i as int), lp[i as int], ver_no as int);
                assert(lp.take(i + 1) =~= lp.take(i as int).push(lp[i as int]));
            }
            Shorthand::update(store, key, ver_no, pid);
        }
        pages.push(page);
    }
    assert(path_loads(pre, pathv));
    let ghost uv = updated@;
    if on_master {
        let key = updated.short();
        let pid = updated.id().clone();
        proof {
            assert(lp.take(n as int) =~= lp);
        }
        Shorthand::update(store, key, ver_no, pid);
    }
    let ghost tview = store.shorthand_view();
    proof {
        assert(store.can_write(BlobView::Node(uv))) by {
            assert(store.blobs() == pre.blobs());
        }
        assert(new_page_at(lp, uv, n - 1) == uv);
    }
    let mut address = match store.write(Blob::Node(updated)) {
        Ok(a) => a,
        Err(e) => {
            proof {
                assert(pre.blobs().contains_key(new_addr_at(lp, uv, n - 1)));
                assert(pre.blobs()[new_addr_at(lp, uv, n - 1)] != BlobView::Node(
                    new_page_at(lp, uv, n - 1),
                ));
                assert(chain_clash(pre.blobs(), lp, uv));
            }
            return Err(e);
        },
    };
    proof {
        assert forall|b: Seq<char>| #[trigger] store.blobs().contains_key(b) implies (
        pre.blobs().contains_key(b) && store.blobs()[b] == pre.blobs()[b]) || (exists|j: int|
            n - 1 <= j < n && new_addr_at(lp, uv, j) == b && store.blobs()[b] == BlobView::Node(
                new_page_at(lp, uv, j),
            )) by {
            if b == new_addr_at(lp, uv, n - 1) {
                assert(new_addr_at(lp, uv, n - 1) == b && store.blobs()[b] == BlobView::Node(
                    new_page_at(lp, uv, n - 1),
                ));
            }
        }
    }
    let mut i = n - 1;
    while i > 0
        invariant
            pre == *old(store),
            pathv == location@.path,
            br == location@.branch,
            pre.wf(),
            store.wf(),
            head_ok(pre, br, pathv),
            n == pathv.len(),
            0 < n,
            0 <= i < n,
            lp == loaded_pages(pre, pathv),
            lp.len() == n,
            uv == updated@,
            path_loads(pre, pathv),
            pre.node_at(pathv.last()).id == uv.id,
            pre.kv_entries().is_prefix_of(store.kv_entries()),
            store.log_entries() == pre.log_entries(),
            store.id_counter() == pre.id_counter(),
            store.shorthand_view() == tview,
            pages@.len() == n,
            forall|j: int| 0 <= j < n ==> (#[trigger] pages@[j])@ == lp[j] && pages@[j].wf(),
            address@ == new_addr_at(lp, uv, i as int),
            forall|b: Seq<char>| #[trigger]
                store.blobs().contains_key(b) ==> (pre.blobs().contains_key(b) && store.blobs()[b]
                    == pre.blobs()[b]) || (exists|j: int|
                    i <= j < n && new_addr_at(lp, uv, j) == b && store.blobs()[b]
                        == BlobView::Node(new_page_at(lp, uv, j))),
            forall|j: int|
                i <= j < n ==> store.blobs().contains_key(#[trigger] new_addr_at(lp, uv, j))
                    && store.blobs()[new_addr_at(lp, uv, j)] == BlobView::Node(
                    new_page_at(lp, uv, j),
                ),
        decreases i,
    {
        i = i - 1;
        let mut parent = pages[i].duplicate();
        let child_id = pages[i + 1].id().clone();
        proof {
            Store::lemma_extends(pre, *store);
            pre.lemma_stored_can_write(pathv[i as int]);
            assert(parent@ == lp[i as int]);
        }
        parent.children.insert(child_id, address);
        proof {
            assert(parent@ == new_page_at(lp, uv, i as int)) by {
                assert(parent@.children =~= pairs_insert(
                    lp[i as int].children,
                    lp[i + 1].id,
                    new_addr_at(lp, uv, i + 1),
                ));
            }
            assert(store.can_write(BlobView::Node(parent@))) by {
                let ch = parent@.children;
                let base = lp[i as int].children;
                assert forall|k: int| 0 <= k < ch.len() implies {
                    let c = #[trigger] ch[k];
                    store.has_node(c.1) && store.node_at(c.1).id == c.0
                } by {
                    if ch[k] == (lp[i + 1].id, new_addr_at(lp, uv, i + 1)) {
                        assert(store.blobs().contains_key(new_addr_at(lp, uv, i + 1)));
                        assert(new_page_at(lp, uv, i + 1).id == lp[i + 1].id);
                    } else {
                        assert(0 <= k < base.len() && ch[k] == base[k]);
                        pre.lemma_node_children(pathv[i as int], k);
                    }
                }
            }
        }
        let ghost prev_blobs = store.blobs();
        let ghost pv = parent@;
        proof {
            assert(pv == new_page_at(lp, uv, i as int));
        }
        address = match store.write(Blob::Node(parent)) {
            Ok(a) => a,
            Err(e) => {
                proof {
                    let a0 = new_addr_at(lp, uv, i as int);
                    assert(prev_blobs.contains_key(a0));
                    assert(prev_blobs[a0] != BlobView::Node(new_page_at(lp, uv, i as int)));
                    if pre.blobs().contains_key(a0) && prev_blobs[a0] == pre.blobs()[a0] {
                        assert(chain_clash(pre.blobs(), lp, uv));
                    } else {
                        let j = choose|j: int|
                            i + 1 <= j < n && new_addr_at(lp, uv, j) == a0 && prev_blobs[a0]
                                == BlobView::Node(new_page_at(lp, uv, j));
                        assert(new_page_at(lp, uv, i as int) != new_page_at(lp, uv, j));
                        assert(chain_clash(pre.blobs(), lp, uv));
                    }
                }
                return Err(e);
            },
        };
        proof {
            assert(pv == new_page_at(lp, uv, i as int));
            assert(address@ == new_addr_at(lp, uv, i as int));
            assert(store.blobs() == prev_blobs.insert(address@, BlobView::Node(pv)));
            assert forall|b: Seq<char>| #[trigger] store.blobs().contains_key(b) implies (
            pre.blobs().contains_key(b) && store.blobs()[b] == pre.blobs()[b]) || (exists|j: int|
                i <= j < n && new_addr_at(lp, uv, j) == b && store.blobs()[b] == BlobView::Node(
                    new_page_at(lp, uv, j),
                )) by {
                if b == address@ {
                    assert(new_addr_at(lp, uv, i as int) == b && store.blobs()[b]
                        == BlobView::Node(new_page_at(lp, uv, i as int)));
                } else {
                    assert(prev_blobs.contains_key(b) && store.blobs()[b] == prev_blobs[b]);
                }
            }
            assert forall|j: int|
                i <= j < n implies store.blobs().contains_key(#[trigger] new_addr_at(lp, uv, j))
                    && store.blobs()[new_addr_at(lp, uv, j)] == BlobView::Node(
                    new_page_at(lp, uv, j),
                ) by {
                if j == i {
                } else {
                    assert(prev_blobs.contains_key(new_addr_at(lp, uv, j)));
                    assert(prev_blobs[new_addr_at(lp, uv, j)] == BlobView::Node(
                        new_page_at(lp, uv, j),
                    ));
                    if new_addr_at(lp, uv, j) == address@ {
                        assert(prev_blobs.contains_key(address@));
                        assert(prev_blobs[address@] == BlobView::Node(pv));
                    }
                }
            }
        }
    }
    proof {
        assert(lp.take(n as int) =~= lp);
    }
    match store.push(branch, address) {
        Ok(_) => {
            proof {
                assert(store.logs() == pre.logs().insert(br, pre.logs()[br].push(
                    new_addr_at(lp, uv, 0),
                )));
                assert(store.shorthand_view() == tview);
                if br == "master"@ {
                    assert(store.shorthand_map() == fold_shorts(
                        pre.shorthand_map(),
                        lp,
                        ver_no as int,
                    ).insert(spec_short(uv.title), (ver_no as int, uv.id, "master"@)));
                } else {
                    assert(store.shorthand_view() == pre.shorthand_view());
                }
                assert(commit_wrote(pre, *store, br, pathv, uv));
            }
            Ok(())
        },
        Err(e) => {
            proof {
                assert(false);
            }
            Err(e)
        },
    }
}

/// A page may be written whenever each of its child entries names a stored
/// page carrying that entry's id.
proof fn lemma_can_write_entries(s: Store, p: PageView)
    requires
        unique_keys(p.children),
        unique_keys(p.fields),
        forall|k: int|
            0 <= k < p.children.len() ==> s.has_node((#[trigger] p.children[k]).1) && s.node_at(
                p.children[k].1,
            ).id == p.children[k].0,
    ensures
        s.can_write(BlobView::Node(p)),
{
}

/// The root page `init` seeds the store with.
pub open spec fn init_page(pre: Store) -> PageView {
    PageView {
        id: seq!['p'] + crate::text::spec_decimal(pre.id_counter() as nat),
        title: "Home"@,
        content: blob_address(BlobView::Text("Check back soon."@)),
        children: Seq::empty(),
        fields: Seq::empty(),
    }
}

/// `init`'s two writes cannot clash: neither the seed content's address nor
/// the root page's address is already bound to something else.
pub open spec fn init_ready(pre: Store) -> bool {
    let caddr = blob_address(BlobView::Text("Check back soon."@));
    let pv = init_page(pre);
    let paddr = blob_address(BlobView::Node(pv));
    let m1 = pre.blobs().insert(caddr, BlobView::Text("Check back soon."@));
    &&& (pre.blobs().contains_key(caddr) ==> pre.blobs()[caddr] == BlobView::Text(
        "Check back soon."@,
    ))
    &&& (m1.contains_key(paddr) ==> m1[paddr] == BlobView::Node(pv))
}

/// The page an `edit` call commits: supplied parts overwritten, omitted
/// parts and the stable id preserved.
pub open spec fn edited_page(
    base: PageView,
    title: Option<String>,
    content: Option<String>,
    fields: Option<Dict>,
) -> PageView {
    PageView {
        id: base.id,
        title: (match title {
            Some(t) => t@,
            None => base.title,
        }),
        content: (match content {
            Some(c) => blob_address(BlobView::Text(c@)),
            None => base.content,
        }),
        children: base.children,
        fields: (match fields {
            Some(f) => f@,
            None => base.fields,
        }),
    }
}

/// An `edit` call's own content write cannot clash.
pub open spec fn edit_ready(pre: Store, content: Option<String>) -> bool {
    match content {
        Some(c) => pre.blobs().contains_key(blob_address(BlobView::Text(c@)))
            ==> pre.blobs()[blob_address(BlobView::Text(c@))] == BlobView::Text(c@),
        None => true,
    }
}

/// The blob table after an `edit` call's own content write.
pub open spec fn edit_mid(pre: Store, content: Option<String>) -> Map<Seq<char>, BlobView> {
    match content {
        Some(c) => pre.blobs().insert(blob_address(BlobView::Text(c@)), BlobView::Text(c@)),
        None => pre.blobs(),
    }
}

/// The parent page a `delete` call commits: the deleted page's id unbound,
/// every other child untouched.
pub open spec fn deleted_parent(pre: Store, path: Seq<Seq<char>>) -> PageView {
    let base = pre.node_at(path.drop_last().last());
    PageView { children: pairs_remove(base.children, pre.node_at(path.last()).id), ..base }
}

/// The page a `create` call constructs, before it is committed.
pub open spec fn created_page(
    pre: Store,
    content: Seq<char>,
    title: Seq<char>,
    fields: Seq<(Seq<char>, Seq<char>)>,
) -> PageView {
    PageView {
        id: seq!['p'] + crate::text::spec_decimal(pre.id_counter() as nat),
        title: title,
        content: blob_address(BlobView::Text(content)),
        children: Seq::empty(),
        fields: fields,
    }
}

/// A `create` call's own two writes cannot clash: neither the content blob's
/// address nor the new page's address is already bound to something else.
pub open spec fn create_ready(
    pre: Store,
    loc: LocationView,
    title: Seq<char>,
    content: Seq<char>,
    fields: Seq<(Seq<char>, Seq<char>)>,
) -> bool {
    let caddr = blob_address(BlobView::Text(content));
    let pv = created_page(pre, content, title, fields);
    let paddr = blob_address(BlobView::Node(pv));
    let m1 = pre.blobs().insert(caddr, BlobView::Text(content));
    &&& loc.path.len() > 0
    &&& (pre.blobs().contains_key(caddr) ==> pre.blobs()[caddr] == BlobView::Text(content))
    &&& (m1.contains_key(paddr) ==> m1[paddr] == BlobView::Node(pv))
}

/// Idempotent bootstrap: creates the seed content, the "Home" root page, the
/// shorthand index, the "master" branch and the branch registry — unless the
/// registry already exists, in which case nothing changes.
pub fn init(store: &mut Store) -> (r: Result<(), Error>)
    requires
        old(store).wf(),
    ensures
        final(store).wf(),
        old(store).kv_entries().is_prefix_of(final(store).kv_entries()),
        old(store).logs().contains_key("hrdb"@) ==> r is Ok && final(store).kv_entries() == old(store).kv_entries() && final(store).log_entries() == old(store).log_entries() && final(store).shorthand_view() == old(store).shorthand_view() && final(store).id_counter() == old(store).id_counter(),
        r is Err ==> r == Err::<(), Error>(Error::AddressCollision) && final(store).log_entries()
            == old(store).log_entries() && final(store).shorthand_view() == old(store).shorthand_view(),
        r is Err ==> !old(store).logs().contains_key("hrdb"@) && !init_ready(*old(store)),
        !old(store).logs().contains_key("hrdb"@) && init_ready(*old(store)) ==> r is Ok,
        !old(store).logs().contains_key("hrdb"@) && r is Ok ==> {
            let caddr = blob_address(BlobView::Text("Check back soon."@));
            let pid = seq!['p'] + crate::text::spec_decimal(old(store).id_counter() as nat);
            let pv = PageView {
                id: pid,
                title: "Home"@,
                content: caddr,
                children: Seq::empty(),
                fields: Seq::empty(),
            };
            let paddr = blob_address(BlobView::Node(pv));
            &&& final(store).blobs().contains_key(caddr) && final(store).blobs()[caddr]
                == BlobView::Text("Check back soon."@)
            &&& final(store).blobs().contains_key(paddr) && final(store).blobs()[paddr]
                == BlobView::Node(pv)
            &&& final(store).logs().contains_key("master"@) && final(store).logs()["master"@] == (
            if old(store).logs().contains_key("master"@) {
                old(store).logs()["master"@]
            } else {
                Seq::<Seq<char>>::empty()
            }).push(paddr)
            &&& final(store).logs().contains_key("hrdb"@) && final(store).logs()["hrdb"@] == seq![
                "master"@,
            ]
            &&& forall|b: Seq<char>|
                old(store).logs().contains_key(b) && b != "master"@ ==> final(store).logs().contains_key(b) && final(store).logs()[b] == old(store).logs()[b]
            &&& final(store).shorthand_view() == seq![
                (spec_short("Home"@), (0int, pid, "master"@)),
            ]
        },
{
    let registry = String::from_str("hrdb");
    proof {
        reveal_strlit("master");
        reveal_strlit("hrdb");
        assert("master"@.len() == 6 && "hrdb"@.len() == 4);
    }
    if store.has_log(&registry) {
        return Ok(());
    }
    let ghost pre = *old(store);
    let content = Content::new(String::from_str("Check back soon."));
    let caddr = match store.write(Blob::Text(content.text())) {
        Ok(a) => a,
        Err(e) => {
            proof {
                assert(!init_ready(pre));
            }
            return Err(e);
        },
    };
    let pid = store.fresh_id();
    let page = Page::new(pid, String::from_str("Home"), caddr, Dict::new());
    let short_key = page.short();
    let root_id = page.id().clone();
    let ghost pv = page@;
    proof {
        assert(pv == init_page(pre));
    }
    let paddr = match store.write(Blob::Node(page)) {
        Ok(a) => a,
        Err(e) => {
            proof {
                assert(store.blobs() == pre.blobs().insert(
                    blob_address(BlobView::Text("Check back soon."@)),
                    BlobView::Text("Check back soon."@),
                ));
                assert(!init_ready(pre));
            }
            return Err(e);
        },
    };
    let mut entries: Vec<ShortEntry> = Vec::new();
    entries.push(
        ShortEntry {
            key: short_key,
            version: 0,
            id: root_id,
            branch: String::from_str("master"),
        },
    );
    let table = Shorthand::wrap(entries);
    proof {
        assert(table.wf());
        assert(table@ =~= seq![(spec_short("Home"@), (0int, pv.id, "master"@))]);
    }
    table.write(store);
    let master = String::from_str("master");
    store.ensure(&master);
    match store.push(&master, paddr) {
        Ok(_) => {},
        Err(e) => {
            proof {
                assert(false);
            }
            return Err(e);
        },
    }
    store.ensure(&registry);
    match store.push(&registry, master) {
        Ok(_) => {
            proof {
                assert(store.logs()["hrdb"@] =~= seq!["master"@]);
            }
            Ok(())
        },
        Err(e) => {
            proof {
                assert(false);
            }
            Err(e)
        },
    }
}

/// Copies a branch's history up to `from`'s version into a new branch and
/// registers the new name in the branch registry; forking into an existing
/// branch is refused.
pub fn fork(store: &mut Store, from: &Location, into: &Location) -> (r: Result<(), Error>)
    requires
        old(store).wf(),
    ensures
        final(store).wf(),
        final(store).kv_entries() == old(store).kv_entries(),
        final(store).shorthand_view() == old(store).shorthand_view(),
        final(store).id_counter() == old(store).id_counter(),
        r is Err ==> final(store).log_entries() == old(store).log_entries(),
        old(store).logs().contains_key(into@.branch) ==> r == Err::<(), Error>(
            Error::BranchAlreadyExists,
        ),
        !old(store).logs().contains_key(into@.branch) && !old(store).logs().contains_key(
            from@.branch,
        ) ==> r == Err::<(), Error>(Error::BranchNotFound),
        !old(store).logs().contains_key(into@.branch) && old(store).logs().contains_key(
            from@.branch,
        ) && from@.path.len() == 0 ==> r == Err::<(), Error>(Error::EmptyLocation),
        !old(store).logs().contains_key(into@.branch) && old(store).logs().contains_key(
            from@.branch,
        ) && from@.path.len() > 0 && (forall|i: int|
            0 <= i < old(store).logs()[from@.branch].len()
                ==> old(store).logs()[from@.branch][i] != from@.path[0]) ==> r == Err::<
            (),
            Error,
        >(Error::NotFound),
        !old(store).logs().contains_key(into@.branch) && old(store).logs().contains_key(
            from@.branch,
        ) && from@.path.len() > 0 && (exists|i: int|
            0 <= i < old(store).logs()[from@.branch].len()
                && old(store).logs()[from@.branch][i] == from@.path[0]) ==> r is Ok,
        r is Ok ==> !old(store).logs().contains_key(into@.branch) && old(
            store,
        ).logs().contains_key(from@.branch) && from@.path.len() > 0 && {
            let vs = old(store).logs()[from@.branch];
            &&& exists|i: int| 0 <= i < vs.len() && vs[i] == from@.path[0]
            &&& {
                let m1 = old(store).logs().insert(
                    into@.branch,
                    vs.subrange(0, first_occurrence(vs, from@.path[0]) + 1),
                );
                final(store).logs() == m1.insert(
                    "hrdb"@,
                    (if m1.contains_key("hrdb"@) {
                        m1["hrdb"@]
                    } else {
                        Seq::<Seq<char>>::empty()
                    }).push(into@.branch),
                )
            }
        },
{
    if store.has_log(into.branch()) {
        return Err(Error::BranchAlreadyExists);
    }
    let from_branch = match Branch::load(store, from.branch()) {
        Ok(b) => b,
        Err(e) => {
            return Err(e);
        },
    };
    let from_version = match from.version() {
        Ok(v) => v,
        Err(e) => {
            return Err(e);
        },
    };
    let into_branch = match from_branch.fork(from_version, into.branch().clone()) {
        Ok(b) => b,
        Err(e) => {
            return Err(e);
        },
    };
    store.ensure(into.branch());
    match store.append(into.branch(), into_branch.versions) {
        Ok(_) => {},
        Err(e) => {
            proof {
                assert(false);
            }
            return Err(e);
        },
    }
    proof {
        let vs = old(store).logs()[from@.branch];
        let cut = vs.subrange(0, first_occurrence(vs, from@.path[0]) + 1);
        assert(Seq::<Seq<char>>::empty() + cut =~= cut);
    }
    let registry = String::from_str("hrdb");
    store.ensure(&registry);
    match store.push(&registry, into.branch().clone()) {
        Ok(_) => Ok(()),
        Err(e) => {
            proof {
                assert(false);
            }
            Err(e)
        },
    }
}

/// Writes a new page as a child of `location` and commits it; returns the
/// child's coordinate.
pub fn create(
    store: &mut Store,
    location: &Location,
    title: String,
    content: String,
    fields: Dict,
) -> (r: Result<Location, Error>)
    requires
        old(store).wf(),
        fields.wf(),
    ensures
        final(store).wf(),
        old(store).kv_entries().is_prefix_of(final(store).kv_entries()),
        r is Err ==> final(store).log_entries() == old(store).log_entries(),
        location@.path.len() == 0 ==> r is Err,
        forall|b: Seq<char>|
            final(store).logs().contains_key(b) <==> old(store).logs().contains_key(b),
        r is Ok && old(store).id_counter() < u64::MAX ==> final(store).id_counter() == old(
            store,
        ).id_counter() + 1,
        r is Ok ==> {
            let caddr = blob_address(BlobView::Text(content@));
            let pid = seq!['p'] + crate::text::spec_decimal(old(store).id_counter() as nat);
            let pv = PageView {
                id: pid,
                title: title@,
                content: caddr,
                children: Seq::empty(),
                fields: fields@,
            };
            let paddr = blob_address(BlobView::Node(pv));
            &&& head_ok(*old(store), location@.branch, location@.path)
            &&& r.unwrap()@.branch == location@.branch
            &&& r.unwrap()@.path == location@.path.push(paddr)
            &&& final(store).blobs().contains_key(caddr) && final(store).blobs()[caddr]
                == BlobView::Text(content@)
            &&& final(store).blobs().contains_key(paddr) && final(store).blobs()[paddr]
                == BlobView::Node(pv)
            &&& exists|a: Seq<char>|
                final(store).logs() == old(store).logs().insert(
                    location@.branch,
                    old(store).logs()[location@.branch].push(a),
                )
            &&& path_loads(*old(store), location@.path) ==> {
                let lp = loaded_pages(*old(store), location@.path).push(pv);
                &&& final(store).logs() == old(store).logs().insert(
                    location@.branch,
                    old(store).logs()[location@.branch].push(new_addr_at(lp, pv, 0)),
                )
                &&& forall|i: int|
                    0 <= i < lp.len() ==> final(store).blobs().contains_key(
                        #[trigger] new_addr_at(lp, pv, i),
                    ) && final(store).blobs()[new_addr_at(lp, pv, i)] == BlobView::Node(
                        new_page_at(lp, pv, i),
                    )
            }
        },
        r == Err::<Location, Error>(Error::StaleVersion) ==> !head_ok(
            *old(store),
            location@.branch,
            location@.path,
        ),
        create_ready(*old(store), location@, title@, content@, fields@) && !head_ok(
            *old(store),
            location@.branch,
            location@.path,
        ) && old(store).logs().contains_key(location@.branch)
            && old(store).logs()[location@.branch].len() > 0 ==> r == Err::<Location, Error>(
            Error::StaleVersion,
        ),
        create_ready(*old(store), location@, title@, content@, fields@) && head_ok(
            *old(store),
            location@.branch,
            location@.path,
        ) && path_loads(*old(store), location@.path) && !chain_clash(
            old(store).blobs().insert(
                blob_address(BlobView::Text(content@)),
                BlobView::Text(content@),
            ).insert(
                blob_address(BlobView::Node(created_page(*old(store), content@, title@, fields@))),
                BlobView::Node(created_page(*old(store), content@, title@, fields@)),
            ),
            loaded_pages(*old(store), location@.path).push(
                created_page(*old(store), content@, title@, fields@),
            ),
            created_page(*old(store), content@, title@, fields@),
        ) ==> r is Ok,
{
    let ghost pre = *old(store);
    let ghost locv = location@;
    let ghost contentv = content@;
    let ghost titlev = title@;
    let ghost fieldsv = fields@;
    let ghost pvg = created_page(pre, contentv, titlev, fieldsv);
    let ghost caddrv = blob_address(BlobView::Text(contentv));
    let ghost paddrv = blob_address(BlobView::Node(pvg));
    let ghost ready = create_ready(pre, locv, titlev, contentv, fieldsv);
    let c = Content::new(content);
    let caddr = match store.write(Blob::Text(c.text())) {
        Ok(a) => a,
        Err(e) => {
            proof {
                assert(!ready);
            }
            return Err(e);
        },
    };
    let pid = store.fresh_id();
    let new = Page::new(pid, title, caddr, fields);
    let ghost pv = new@;
    proof {
        assert(pv == pvg);
    }
    let new_copy = new.duplicate();
    let paddr = match store.write(Blob::Node(new)) {
        Ok(a) => a,
        Err(e) => {
            proof {
                assert(store.blobs() == pre.blobs().insert(caddrv, BlobView::Text(contentv)));
                assert(!ready);
            }
            return Err(e);
        },
    };
    let child = match location.forward(paddr) {
        Ok(l) => l,
        Err(e) => {
            return Err(e);
        },
    };
    let ghost mid = *store;
    proof {
        assert(mid.blobs() == pre.blobs().insert(caddrv, BlobView::Text(contentv)).insert(
            paddrv,
            BlobView::Node(pvg),
        ));
        if path_loads(pre, locv.path) {
            assert(loaded_pages(mid, child@.path) =~= loaded_pages(pre, locv.path).push(pvg)) by {
                assert forall|i: int| 0 <= i < child@.path.len() implies loaded_pages(
                    mid,
                    child@.path,
                )[i] == loaded_pages(pre, locv.path).push(pvg)[i] by {
                    if i < locv.path.len() {
                        let elt = locv.path[i];
                        assert(pre.has_node(elt));
                        assert(elt != caddrv) by {
                            if elt == caddrv {
                                assert(pre.blobs()[caddrv] is Node);
                            }
                        }
                        if elt == paddrv {
                            assert(mid.blobs()[elt] == BlobView::Node(pvg));
                            assert(pre.blobs()[elt] == BlobView::Node(pvg));
                        } else {
                            assert(mid.blobs()[elt] == pre.blobs()[elt]);
                        }
                    } else {
                        assert(child@.path[i] == paddrv);
                    }
                }
            }
        }
    }
    match commit(store, &child, new_copy) {
        Ok(_) => {
            proof {
                Store::lemma_extends(mid, *store);
                let br = locv.branch;
                assert(mid.logs() == pre.logs());
                assert(head_ok(pre, br, locv.path)) by {
                    assert(head_ok(mid, br, child@.path));
                    assert(child@.path[0] == locv.path[0]);
                }
                let a0 = new_addr_at(loaded_pages(mid, child@.path), pv, 0);
                assert(store.logs() == pre.logs().insert(br, pre.logs()[br].push(a0)));
                assert(exists|a: Seq<char>|
                    store.logs() == pre.logs().insert(br, pre.logs()[br].push(a)));
                assert(mid.blobs().contains_key(child@.path.last()) && mid.blobs()[child@.path.last()] == BlobView::Node(pv));
                assert(mid.blobs().contains_key(pv.content) && mid.blobs()[pv.content]
                    == BlobView::Text(contentv));
                assert(store.blobs().contains_key(child@.path.last())
                    && store.blobs()[child@.path.last()] == BlobView::Node(pv));
                assert(store.blobs().contains_key(pv.content) && store.blobs()[pv.content]
                    == BlobView::Text(contentv));
                if path_loads(pre, locv.path) {
                    let lpp = loaded_pages(pre, locv.path).push(pvg);
                    assert(loaded_pages(mid, child@.path) == lpp);
                    assert(store.logs() == pre.logs().insert(br, pre.logs()[br].push(
                        new_addr_at(lpp, pvg, 0),
                    )));
                }
            }
            Ok(child)
        },
        Err(e) => {
            proof {
                if ready && head_ok(pre, locv.branch, locv.path) && path_loads(pre, locv.path)
                    && !chain_clash(
                    pre.blobs().insert(caddrv, BlobView::Text(contentv)).insert(
                        paddrv,
                        BlobView::Node(pvg),
                    ),
                    loaded_pages(pre, locv.path).push(pvg),
                    pvg,
                ) {
                    assert(head_ok(mid, locv.branch, child@.path)) by {
                        assert(mid.logs() == pre.logs());
                        assert(child@.path[0] == locv.path[0]);
                    }
                    assert(path_loads(mid, child@.path)) by {
                        assert forall|i: int| 0 <= i < child@.path.len() implies mid.has_node(
                            #[trigger] child@.path[i],
                        ) by {
                            assert(loaded_pages(mid, child@.path) =~= loaded_pages(
                                pre,
                                locv.path,
                            ).push(pvg));
                            if i < locv.path.len() {
                                let elt = locv.path[i];
                                assert(pre.has_node(elt));
                                assert(elt != caddrv) by {
                                    if elt == caddrv {
                                        assert(pre.blobs()[caddrv] is Node);
                                    }
                                }
                                if elt == paddrv {
                                    assert(mid.blobs()[elt] == BlobView::Node(pvg));
                                } else {
                                    assert(mid.blobs()[elt] == pre.blobs()[elt]);
                                }
                            } else {
                                assert(child@.path[i] == paddrv);
                                assert(mid.blobs()[paddrv] == BlobView::Node(pvg));
                            }
                        }
                    }
                    assert(!chain_clash(
                        mid.blobs(),
                        loaded_pages(mid, child@.path),
                        pvg,
                    ));
                    assert(false);
                }
                if ready && !head_ok(pre, locv.branch, locv.path) && pre.logs().contains_key(
                    locv.branch,
                ) && pre.logs()[locv.branch].len() > 0 && locv.path.len() > 0 {
                    assert(child@.path[0] == locv.path[0]);
                    assert(e == Error::StaleVersion);
                }
                if e == Error::StaleVersion {
                    assert(!head_ok(mid, locv.branch, child@.path));
                    assert(!head_ok(pre, locv.branch, locv.path)) by {
                        assert(mid.logs() == pre.logs());
                        if head_ok(pre, locv.branch, locv.path) {
                            assert(child@.path[0] == locv.path[0]);
                        }
                    }
                }
            }
            return Err(e);
        },
    }
}

/// Overwrites only the supplied parts of the page at `location` and commits
/// the result at the same spot; omitted parts are preserved.
pub fn edit(
    store: &mut Store,
    location: &Location,
    title: Option<String>,
    content: Option<String>,
    fields: Option<Dict>,
) -> (r: Result<(), Error>)
    requires
        old(store).wf(),
        match fields {
            Some(f) => f.wf(),
            None => true,
        },
    ensures
        final(store).wf(),
        old(store).kv_entries().is_prefix_of(final(store).kv_entries()),
        r is Err ==> final(store).log_entries() == old(store).log_entries(),
        final(store).id_counter() == old(store).id_counter(),
        forall|b: Seq<char>|
            final(store).logs().contains_key(b) <==> old(store).logs().contains_key(b),
        r is Ok ==> head_ok(*old(store), location@.branch, location@.path) && path_loads(
            *old(store),
            location@.path,
        ) && old(store).has_node(location@.path.last()) && {
            let base = old(store).node_at(location@.path.last());
            let uv = edited_page(base, title, content, fields);
            let lp = loaded_pages(*old(store), location@.path);
            &&& final(store).logs() == old(store).logs().insert(
                location@.branch,
                old(store).logs()[location@.branch].push(new_addr_at(lp, uv, 0)),
            )
            &&& forall|i: int|
                0 <= i < lp.len() ==> final(store).blobs().contains_key(
                    #[trigger] new_addr_at(lp, uv, i),
                ) && final(store).blobs()[new_addr_at(lp, uv, i)] == BlobView::Node(
                    new_page_at(lp, uv, i),
                )
        },
        r == Err::<(), Error>(Error::StaleVersion) ==> !head_ok(
            *old(store),
            location@.branch,
            location@.path,
        ),
        location@.path.len() > 0 && old(store).has_node(location@.path.last()) && edit_ready(
            *old(store),
            content,
        ) && old(store).logs().contains_key(location@.branch)
            && old(store).logs()[location@.branch].len() > 0 && location@.path[0] != old(
            store,
        ).logs()[location@.branch].last() ==> r == Err::<(), Error>(Error::StaleVersion),
        location@.path.len() > 0 && old(store).has_node(location@.path.last()) && edit_ready(
            *old(store),
            content,
        ) && head_ok(*old(store), location@.branch, location@.path) && path_loads(
            *old(store),
            location@.path,
        ) && !chain_clash(
            edit_mid(*old(store), content),
            loaded_pages(*old(store), location@.path),
            edited_page(old(store).node_at(location@.path.last()), title, content, fields),
        ) ==> r is Ok,
{
    let ghost pre = *old(store);
    let ghost locv = location@;
    let ghost t0 = title;
    let ghost c0 = content;
    let ghost f0 = fields;
    let end = match location.end() {
        Ok(v) => v,
        Err(e) => {
            return Err(e);
        },
    };
    let mut page = match store.read(end) {
        Ok(Blob::Node(p)) => p.duplicate(),
        Ok(Blob::Text(_)) => {
            return Err(Error::CorruptPage);
        },
        Err(e) => {
            return Err(e);
        },
    };
    let ghost base = page@;
    proof {
        store.lemma_stored_can_write(locv.path.last());
    }
    match content {
        Some(c) => {
            let caddr = match store.write(Blob::Text(c)) {
                Ok(a) => a,
                Err(e) => {
                    proof {
                        assert(!edit_ready(pre, c0));
                    }
                    return Err(e);
                },
            };
            page.content = caddr;
        },
        None => {},
    }
    match title {
        Some(t) => {
            page.title = t;
        },
        None => {},
    }
    match fields {
        Some(f) => {
            page.fields = f;
        },
        None => {},
    }
    let ghost mid = *store;
    let ghost uv = page@;
    proof {
        Store::lemma_extends(pre, mid);
        assert(mid.can_write(BlobView::Node(page@)));
        assert(uv == edited_page(base, t0, c0, f0));
        assert(mid.blobs() == edit_mid(pre, c0));
        assert forall|i: int| 0 <= i < locv.path.len() && mid.has_node(
            #[trigger] locv.path[i],
        ) implies pre.has_node(locv.path[i]) && mid.node_at(locv.path[i]) == pre.node_at(
            locv.path[i],
        ) by {
            match c0 {
                Some(c) => {
                    let ca = blob_address(BlobView::Text(c@));
                    if locv.path[i] == ca {
                        assert(mid.blobs()[ca] == BlobView::Text(c@));
                    } else {
                        assert(mid.blobs()[locv.path[i]] == pre.blobs()[locv.path[i]]);
                    }
                },
                None => {},
            }
        }
        assert forall|i: int| 0 <= i < locv.path.len() && pre.has_node(
            #[trigger] locv.path[i],
        ) implies mid.has_node(locv.path[i]) by {
            match c0 {
                Some(c) => {
                    let ca = blob_address(BlobView::Text(c@));
                    if locv.path[i] == ca {
                        assert(pre.blobs()[ca] == BlobView::Text(c@));
                    } else {
                        assert(mid.blobs()[locv.path[i]] == pre.blobs()[locv.path[i]]);
                    }
                },
                None => {},
            }
        }
    }
    match commit(store, location, page) {
        Ok(_) => {
            proof {
                assert(path_loads(pre, locv.path));
                assert(loaded_pages(mid, locv.path) =~= loaded_pages(pre, locv.path));
                assert(head_ok(pre, locv.branch, locv.path));
                assert(store.logs() == pre.logs().insert(
                    locv.branch,
                    pre.logs()[locv.branch].push(
                        new_addr_at(loaded_pages(pre, locv.path), uv, 0),
                    ),
                ));
            }
            Ok(())
        },
        Err(e) => {
            proof {
                if locv.path.len() > 0 && pre.has_node(locv.path.last()) && edit_ready(pre, c0)
                    && head_ok(pre, locv.branch, locv.path) && path_loads(pre, locv.path)
                    && !chain_clash(
                    edit_mid(pre, c0),
                    loaded_pages(pre, locv.path),
                    edited_page(base, t0, c0, f0),
                ) {
                    assert(path_loads(mid, locv.path));
                    assert(loaded_pages(mid, locv.path) =~= loaded_pages(pre, locv.path));
                    assert(head_ok(mid, locv.branch, locv.path)) by {
                        assert(mid.logs() == pre.logs());
                    }
                    assert(!chain_clash(mid.blobs(), loaded_pages(mid, locv.path), uv));
                    assert(false);
                }
                if locv.path.len() > 0 && pre.has_node(locv.path.last()) && edit_ready(pre, c0)
                    && pre.logs().contains_key(locv.branch) && pre.logs()[locv.branch].len() > 0
                    && locv.path[0] != pre.logs()[locv.branch].last() {
                    assert(mid.logs() == pre.logs());
                    assert(e == Error::StaleVersion);
                }
                if e == Error::StaleVersion {
                    assert(!head_ok(mid, locv.branch, locv.path));
                    assert(!head_ok(pre, locv.branch, locv.path)) by {
                        assert(mid.logs() == pre.logs());
                    }
                }
            }
            Err(e)
        },
    }
}

/// The title, content text and fields of the page at `location`.
pub fn read(store: &Store, location: &Location) -> (r: Result<(String, String, Dict), Error>)
    requires
        store.wf(),
    ensures
        match r {
            Ok(t) => location@.path.len() > 0 && store.has_node(location@.path.last()) && {
                let p = store.node_at(location@.path.last());
                &&& t.0@ == p.title
                &&& t.2@ == p.fields
                &&& store.blobs().contains_key(p.content)
                &&& store.blobs()[p.content] == BlobView::Text(t.1@)
            },
            Err(e) => {
                ||| e == Error::EmptyLocation && location@.path.len() == 0
                ||| location@.path.len() > 0 && e == Error::NotFound && !store.blobs().contains_key(
                    location@.path.last(),
                )
                ||| location@.path.len() > 0 && e == Error::CorruptPage
                    && store.blobs().contains_key(location@.path.last())
                    && !(store.blobs()[location@.path.last()] is Node)
                ||| location@.path.len() > 0 && store.has_node(location@.path.last()) && e
                    == Error::NotFound && !store.blobs().contains_key(
                    store.node_at(location@.path.last()).content,
                )
                ||| location@.path.len() > 0 && store.has_node(location@.path.last()) && e
                    == Error::CorruptPage && store.blobs().contains_key(
                    store.node_at(location@.path.last()).content,
                ) && !(store.blobs()[store.node_at(location@.path.last()).content] is Text)
            },
        },
{
    let end = match location.end() {
        Ok(v) => v,
        Err(e) => {
            return Err(e);
        },
    };
    let page = match store.read(end) {
        Ok(Blob::Node(p)) => p,
        Ok(Blob::Text(_)) => {
            return Err(Error::CorruptPage);
        },
        Err(e) => {
            return Err(e);
        },
    };
    let text = match store.read(&page.content) {
        Ok(Blob::Text(t)) => t.clone(),
        Ok(Blob::Node(_)) => {
            return Err(Error::CorruptPage);
        },
        Err(e) => {
            return Err(e);
        },
    };
    Ok((page.title.clone(), text, page.fields.duplicate()))
}

/// The title of the page at `location`.
pub fn title(store: &Store, location: &Location) -> (r: Result<String, Error>)
    requires
        store.wf(),
    ensures
        match r {
            Ok(t) => location@.path.len() > 0 && store.has_node(location@.path.last()) && t@
                == store.node_at(location@.path.last()).title,
            Err(e) => {
                ||| e == Error::EmptyLocation && location@.path.len() == 0
                ||| e == Error::NotFound && location@.path.len() > 0
                    && !store.blobs().contains_key(location@.path.last())
                ||| e == Error::CorruptPage && location@.path.len() > 0
                    && store.blobs().contains_key(location@.path.last()) && !(store.blobs()[location@.path.last()] is Node)
            },
        },
{
    let end = match location.end() {
        Ok(v) => v,
        Err(e) => {
            return Err(e);
        },
    };
    match store.read(end) {
        Ok(Blob::Node(p)) => Ok(p.title.clone()),
        Ok(Blob::Text(_)) => Err(Error::CorruptPage),
        Err(e) => Err(e),
    }
}

/// The page `relocate` attaches: `to`'s page with the moved page's id bound
/// to the moved page's current address.
pub open spec fn attached_page(pre: Store, from: LocationView, to: LocationView) -> PageView {
    let tb = pre.node_at(to.path.last());
    let fid = pre.node_at(from.path.last()).id;
    PageView { children: pairs_insert(tb.children, fid, from.path.last()), ..tb }
}

/// The page `relocate` detaches from: the old parent with the moved page's
/// id unbound, every other child untouched.
pub open spec fn detached_parent(pre: Store, from: LocationView) -> PageView {
    let base = pre.node_at(from.path.drop_last().last());
    PageView {
        children: pairs_remove(base.children, pre.node_at(from.path.last()).id),
        ..base
    }
}

/// The new head address the attaching commit of a `relocate` appends.
pub open spec fn attach_addr(pre: Store, from: LocationView, to: LocationView) -> Seq<char> {
    new_addr_at(loaded_pages(pre, to.path), attached_page(pre, from, to), 0)
}

/// All three pages a `relocate` reads are present.
pub open spec fn relocate_loads(pre: Store, from: LocationView, to: LocationView) -> bool {
    &&& from.path.len() >= 2
    &&& to.path.len() > 0
    &&& pre.has_node(from.path.drop_last().last())
    &&& pre.has_node(from.path.last())
    &&& pre.has_node(to.path.last())
}

/// Moves the page at `from` under the page at `to`, preserving its id: one
/// commit attaches it to the new parent, a second detaches it from the old
/// one. The two commits are independent; if the second fails the page stays
/// reachable from both places, and exactly one version was appended.
#[verifier::rlimit(100)]
#[verifier::spinoff_prover]
pub fn relocate(store: &mut Store, from: &Location, to: &Location) -> (r: Result<(), Error>)
    requires
        old(store).wf(),
    ensures
        final(store).wf(),
        old(store).kv_entries().is_prefix_of(final(store).kv_entries()),
        final(store).id_counter() == old(store).id_counter(),
        forall|b: Seq<char>|
            final(store).logs().contains_key(b) <==> old(store).logs().contains_key(b),
        r is Err ==> final(store).log_entries() == old(store).log_entries() || {
            let uv1 = attached_page(*old(store), from@, to@);
            &&& old(store).logs().contains_key(to@.branch)
            &&& final(store).logs() == old(store).logs().insert(
                to@.branch,
                old(store).logs()[to@.branch].push(attach_addr(*old(store), from@, to@)),
            )
            &&& final(store).blobs().contains_key(blob_address(BlobView::Node(uv1)))
            &&& final(store).blobs()[blob_address(BlobView::Node(uv1))] == BlobView::Node(uv1)
        },
        r is Ok ==> relocate_loads(*old(store), from@, to@) && head_ok(
            *old(store),
            to@.branch,
            to@.path,
        ) && {
            let uv1 = attached_page(*old(store), from@, to@);
            let uv2 = detached_parent(*old(store), from@);
            &&& final(store).blobs().contains_key(blob_address(BlobView::Node(uv1)))
            &&& final(store).blobs()[blob_address(BlobView::Node(uv1))] == BlobView::Node(uv1)
            &&& final(store).blobs().contains_key(blob_address(BlobView::Node(uv2)))
            &&& final(store).blobs()[blob_address(BlobView::Node(uv2))] == BlobView::Node(uv2)
            &&& path_loads(*old(store), from@.path.drop_last()) ==> {
                let a1 = attach_addr(*old(store), from@, to@);
                let a2 = new_addr_at(
                    loaded_pages(*old(store), from@.path.drop_last()),
                    uv2,
                    0,
                );
                let m1 = old(store).logs().insert(
                    to@.branch,
                    old(store).logs()[to@.branch].push(a1),
                );
                final(store).logs() == m1.insert(from@.branch, m1[from@.branch].push(a2))
            }
        },
        relocate_loads(*old(store), from@, to@) && head_ok(*old(store), to@.branch, to@.path)
            && path_loads(*old(store), to@.path) && !chain_clash(
            old(store).blobs(),
            loaded_pages(*old(store), to@.path),
            attached_page(*old(store), from@, to@),
        ) ==> {
            &&& final(store).logs()[to@.branch].len() > old(store).logs()[to@.branch].len()
            &&& (to@.branch == from@.branch && from@.path[0] != attach_addr(
                *old(store),
                from@,
                to@,
            ) ==> r == Err::<(), Error>(Error::StaleVersion))
        },
{
    let ghost pre = *old(store);
    let ghost fromv = from@;
    let ghost tov = to@;
    let parent_loc = match from.back() {
        Ok(l) => l,
        Err(e) => {
            return Err(e);
        },
    };
    let parent_end = match parent_loc.end() {
        Ok(v) => v.clone(),
        Err(e) => {
            return Err(e);
        },
    };
    let mut parent = match store.read(&parent_end) {
        Ok(Blob::Node(p)) => p.duplicate(),
        Ok(Blob::Text(_)) => {
            return Err(Error::CorruptPage);
        },
        Err(e) => {
            return Err(e);
        },
    };
    proof {
        store.lemma_stored_can_write(parent_loc@.path.last());
    }
    let from_end = match from.end() {
        Ok(v) => v.clone(),
        Err(e) => {
            return Err(e);
        },
    };
    let from_page = match store.read(&from_end) {
        Ok(Blob::Node(p)) => p.duplicate(),
        Ok(Blob::Text(_)) => {
            return Err(Error::CorruptPage);
        },
        Err(e) => {
            return Err(e);
        },
    };
    let to_end = match to.end() {
        Ok(v) => v,
        Err(e) => {
            return Err(e);
        },
    };
    let mut to_page = match store.read(to_end) {
        Ok(Blob::Node(p)) => p.duplicate(),
        Ok(Blob::Text(_)) => {
            return Err(Error::CorruptPage);
        },
        Err(e) => {
            return Err(e);
        },
    };
    proof {
        store.lemma_stored_can_write(to@.path.last());
    }
    let ghost to_base = store.node_at(to@.path.last());
    let ghost parent_base = store.node_at(parent_loc@.path.last());
    let ghost fid = from_page@.id;
    let ghost fend = from@.path.last();
    to_page.children.insert(from_page.id().clone(), from_end);
    parent.children.remove(from_page.id());
    let ghost pre1 = *store;
    let ghost uv1 = to_page@;
    let ghost uv2 = parent@;
    let ghost ppv = fromv.path.drop_last();
    proof {
        assert(pre1 == pre);
        assert(relocate_loads(pre, fromv, tov)) by {
            assert(ppv.len() > 0);
        }
        assert(parent_loc@.path == ppv);
        assert(uv1 == attached_page(pre, fromv, tov));
        assert(uv2 == detached_parent(pre, fromv)) by {
            assert(parent_base == pre.node_at(ppv.last()));
        }
        let ch = to_page@.children;
        assert(ch == pairs_insert(to_base.children, fid, fend));
        assert forall|k: int| 0 <= k < ch.len() implies pre1.has_node(
            (#[trigger] ch[k]).1,
        ) && pre1.node_at(ch[k].1).id == ch[k].0 by {
            if ch[k] == (fid, fend) {
                assert(pre1.has_node(fend) && pre1.node_at(fend).id == fid);
            } else {
                assert(0 <= k < to_base.children.len() && ch[k] == to_base.children[k]);
            }
        }
        lemma_can_write_entries(pre1, to_page@);
        assert(pre1.node_at(to@.path.last()).id == to_page@.id);
    }
    match commit(store, to, to_page) {
        Ok(_) => {},
        Err(e) => {
            proof {
                if relocate_loads(pre, fromv, tov) && head_ok(pre, tov.branch, tov.path)
                    && path_loads(pre, tov.path) && !chain_clash(
                    pre.blobs(),
                    loaded_pages(pre, tov.path),
                    uv1,
                ) {
                    assert(false);
                }
            }
            return Err(e);
        },
    }
    let ghost post1 = *store;
    proof {
        Store::lemma_extends(pre1, post1);
        assert(post1.logs() == pre.logs().insert(
            tov.branch,
            pre.logs()[tov.branch].push(attach_addr(pre, fromv, tov)),
        ));
        assert(post1.blobs().contains_key(blob_address(BlobView::Node(uv1)))
            && post1.blobs()[blob_address(BlobView::Node(uv1))] == BlobView::Node(uv1)) by {
            let lp1 = loaded_pages(pre, tov.path);
            let n1 = tov.path.len();
            assert(new_page_at(lp1, uv1, n1 - 1) == uv1);
            assert(post1.blobs().contains_key(new_addr_at(lp1, uv1, n1 - 1))
                && post1.blobs()[new_addr_at(lp1, uv1, n1 - 1)] == BlobView::Node(
                new_page_at(lp1, uv1, n1 - 1),
            ));
        }
        let ch = parent@.children;
        assert forall|k: int| 0 <= k < ch.len() implies post1.has_node(
            (#[trigger] ch[k]).1,
        ) && post1.node_at(ch[k].1).id == ch[k].0 by {
            if assoc_map(parent_base.children).contains_key(fid) {
                lemma_assoc_contains(parent_base.children, fid);
                let rk = key_rank(parent_base.children, fid);
                assert(0 <= rk < parent_base.children.len() && parent_base.children[rk].0 == fid);
                assert(ch =~= parent_base.children.remove(rk));
                if k < rk {
                    assert(ch[k] == parent_base.children[k]);
                } else {
                    assert(ch[k] == parent_base.children[k + 1]);
                }
            } else {
                assert(ch[k] == parent_base.children[k]);
            }
            assert(pre1.has_node(ch[k].1) && pre1.node_at(ch[k].1).id == ch[k].0);
        }
        lemma_can_write_entries(post1, parent@);
        if path_loads(post1, ppv) && ppv.len() > 0 {
            assert(post1.node_at(ppv.last()).id == parent@.id) by {
                assert(pre1.blobs().contains_key(ppv.last()));
            }
        }
        if path_loads(pre, ppv) {
            assert(loaded_pages(post1, ppv) =~= loaded_pages(pre, ppv)) by {
                assert forall|i: int| 0 <= i < ppv.len() implies loaded_pages(post1, ppv)[i]
                    == loaded_pages(pre, ppv)[i] by {
                    assert(pre.blobs().contains_key(ppv[i]));
                }
            }
        }
    }
    let r2 = match commit(store, &parent_loc, parent) {
        Ok(_) => Ok(()),
        Err(e) => Err(e),
    };
    proof {
        Store::lemma_extends(post1, *store);
        let a1 = attach_addr(pre, fromv, tov);
        assert(store.blobs().contains_key(blob_address(BlobView::Node(uv1)))
            && store.blobs()[blob_address(BlobView::Node(uv1))] == BlobView::Node(uv1)) by {
            assert(post1.blobs().contains_key(blob_address(BlobView::Node(uv1))));
        }
        if r2 is Ok {
            let m = ppv.len();
            let lp2 = loaded_pages(post1, ppv);
            assert(new_page_at(lp2, uv2, m - 1) == uv2);
            assert(store.blobs().contains_key(new_addr_at(lp2, uv2, m - 1)));
            assert(store.blobs()[blob_address(BlobView::Node(uv2))] == BlobView::Node(uv2));
            assert(head_ok(pre, tov.branch, tov.path));
            if path_loads(pre, ppv) {
                assert(loaded_pages(post1, ppv) == loaded_pages(pre, ppv));
                assert(store.logs() == post1.logs().insert(
                    fromv.branch,
                    post1.logs()[fromv.branch].push(
                        new_addr_at(loaded_pages(pre, ppv), uv2, 0),
                    ),
                ));
            }
        } else {
            assert(store.log_entries() == post1.log_entries());
        }
        if relocate_loads(pre, fromv, tov) && head_ok(pre, tov.branch, tov.path) && path_loads(
            pre,
            tov.path,
        ) && !chain_clash(pre.blobs(), loaded_pages(pre, tov.path), uv1) {
            assert(store.logs()[tov.branch].len() > pre.logs()[tov.branch].len()) by {
                assert(post1.logs()[tov.branch].len() == pre.logs()[tov.branch].len() + 1);
            }
            if tov.branch == fromv.branch && fromv.path[0] != a1 {
                assert(ppv[0] == fromv.path[0]);
                assert(post1.logs()[fromv.branch].last() == a1);
                if r2 is Ok {
                    assert(head_ok(post1, fromv.branch, ppv));
                    assert(false);
                } else {
                    assert(ppv.len() > 0);
                    assert(post1.logs().contains_key(fromv.branch));
                    assert(post1.logs()[fromv.branch].len() > 0);
                    assert(r2 == Err::<(), Error>(Error::StaleVersion));
                }
            }
        }
    }
    r2
}

/// Removes the page at `location` from its parent's child table and commits
/// the parent; the subtree stays in storage but is unreachable from the new
/// head.
pub fn delete(store: &mut Store, location: &Location) -> (r: Result<(), Error>)
    requires
        old(store).wf(),
    ensures
        final(store).wf(),
        old(store).kv_entries().is_prefix_of(final(store).kv_entries()),
        r is Err ==> final(store).log_entries() == old(store).log_entries(),
        forall|b: Seq<char>|
            final(store).logs().contains_key(b) <==> old(store).logs().contains_key(b),
        final(store).id_counter() == old(store).id_counter(),
        r is Ok ==> head_ok(*old(store), location@.branch, location@.path.drop_last())
            && path_loads(*old(store), location@.path.drop_last()) && old(store).has_node(
            location@.path.last(),
        ) && {
            let dl = location@.path.drop_last();
            let uv = deleted_parent(*old(store), location@.path);
            let lp = loaded_pages(*old(store), dl);
            &&& final(store).logs() == old(store).logs().insert(
                location@.branch,
                old(store).logs()[location@.branch].push(new_addr_at(lp, uv, 0)),
            )
            &&& forall|i: int|
                0 <= i < lp.len() ==> final(store).blobs().contains_key(
                    #[trigger] new_addr_at(lp, uv, i),
                ) && final(store).blobs()[new_addr_at(lp, uv, i)] == BlobView::Node(
                    new_page_at(lp, uv, i),
                )
        },
        r == Err::<(), Error>(Error::StaleVersion) ==> !head_ok(
            *old(store),
            location@.branch,
            location@.path.drop_last(),
        ),
        location@.path.len() >= 2 && old(store).has_node(location@.path.drop_last().last())
            && old(store).has_node(location@.path.last()) && old(store).logs().contains_key(
            location@.branch,
        ) && old(store).logs()[location@.branch].len() > 0 && location@.path[0] != old(
            store,
        ).logs()[location@.branch].last() ==> r == Err::<(), Error>(Error::StaleVersion),
        location@.path.len() >= 2 && old(store).has_node(location@.path.drop_last().last())
            && old(store).has_node(location@.path.last()) && head_ok(
            *old(store),
            location@.branch,
            location@.path.drop_last(),
        ) && path_loads(*old(store), location@.path.drop_last()) && !chain_clash(
            old(store).blobs(),
            loaded_pages(*old(store), location@.path.drop_last()),
            deleted_parent(*old(store), location@.path),
        ) ==> r is Ok,
{
    let ghost pre = *old(store);
    let ghost locv = location@;
    let parent_loc = match location.back() {
        Ok(l) => l,
        Err(e) => {
            return Err(e);
        },
    };
    let parent_end = match parent_loc.end() {
        Ok(v) => v.clone(),
        Err(e) => {
            return Err(e);
        },
    };
    let mut parent = match store.read(&parent_end) {
        Ok(Blob::Node(p)) => p.duplicate(),
        Ok(Blob::Text(_)) => {
            return Err(Error::CorruptPage);
        },
        Err(e) => {
            return Err(e);
        },
    };
    proof {
        store.lemma_stored_can_write(parent_loc@.path.last());
    }
    let end = match location.end() {
        Ok(v) => v,
        Err(e) => {
            return Err(e);
        },
    };
    let page = match store.read(end) {
        Ok(Blob::Node(p)) => p.duplicate(),
        Ok(Blob::Text(_)) => {
            return Err(Error::CorruptPage);
        },
        Err(e) => {
            return Err(e);
        },
    };
    let ghost base = store.node_at(parent_loc@.path.last());
    parent.children.remove(page.id());
    proof {
        let ch = parent@.children;
        assert forall|k: int| 0 <= k < ch.len() implies store.has_node(
            (#[trigger] ch[k]).1,
        ) && store.node_at(ch[k].1).id == ch[k].0 by {
            if assoc_map(base.children).contains_key(page@.id) {
                lemma_assoc_contains(base.children, page@.id);
                let rk = key_rank(base.children, page@.id);
                assert(0 <= rk < base.children.len() && base.children[rk].0 == page@.id);
                assert(ch =~= base.children.remove(rk));
                if k < rk {
                    assert(ch[k] == base.children[k]);
                } else {
                    assert(ch[k] == base.children[k + 1]);
                }
            } else {
                assert(ch[k] == base.children[k]);
            }
        }
        lemma_can_write_entries(*store, parent@);
        assert(store.node_at(parent_loc@.path.last()).id == parent@.id);
        assert(parent@.children == pairs_remove(base.children, page@.id));
    }
    let ghost mid = *store;
    let ghost uv = parent@;
    let ghost dl = locv.path.drop_last();
    proof {
        assert(mid == pre);
        assert(parent_loc@.path == dl);
        assert(locv.path.len() >= 2) by {
            assert(dl.len() > 0);
        }
        assert(dl[0] == locv.path[0]);
        assert(uv == deleted_parent(pre, locv.path)) by {
            assert(base == pre.node_at(dl.last()));
            assert(page@.id == pre.node_at(locv.path.last()).id);
        }
    }
    match commit(store, &parent_loc, parent) {
        Ok(_) => {
            proof {
                let n = dl.len();
                let lp = loaded_pages(pre, dl);
                assert(new_page_at(lp, uv, n - 1) == uv);
                assert(store.blobs().contains_key(new_addr_at(lp, uv, n - 1)));
                assert(store.blobs()[blob_address(BlobView::Node(uv))] == BlobView::Node(uv));
            }
            Ok(())
        },
        Err(e) => {
            proof {
                if head_ok(pre, locv.branch, dl) && path_loads(pre, dl) && !chain_clash(
                    pre.blobs(),
                    loaded_pages(pre, dl),
                    uv,
                ) {
                    assert(false);
                }
                if pre.logs().contains_key(locv.branch) && pre.logs()[locv.branch].len() > 0
                    && locv.path[0] != pre.logs()[locv.branch].last() {
                    assert(e == Error::StaleVersion);
                }
            }
            Err(e)
        },
    }
}

/// The stable page ids along a location's path, root first.
pub fn path_as_ids(store: &Store, location: &Location) -> (r: Result<Vec<String>, Error>)
    requires
        store.wf(),
    ensures
        match r {
            Ok(ids) => path_loads(*store, location@.path) && ids.deep_view().len()
                == location@.path.len() && forall|i: int|
                0 <= i < location@.path.len() ==> ids.deep_view()[i] == store.node_at(
                    #[trigger] location@.path[i],
                ).id,
            Err(e) => (e == Error::NotFound || e == Error::CorruptPage) && !path_loads(
                *store,
                location@.path,
            ),
        },
{
    let path = location.path();
    let n = path.len();
    let mut ids: Vec<String> = Vec::new();
    for i in 0..n
        invariant
            n == path@.len(),
            path.deep_view() == location@.path,
            store.wf(),
            ids@.len() == i,
            forall|j: int| 0 <= j < i ==> store.has_node(#[trigger] location@.path[j]),
            forall|j: int|
                0 <= j < i ==> ids.deep_view()[j] == store.node_at(#[trigger] location@.path[j]).id,
    {
        assert(path@[i as int]@ == location@.path[i as int]);
        match store.read(&path[i]) {
            Ok(Blob::Node(p)) => {
                ids.push(p.id.clone());
            },
            Ok(Blob::Text(_)) => {
                return Err(Error::CorruptPage);
            },
            Err(e) => {
                return Err(e);
            },
        }
    }
    Ok(ids)
}

/// The stable ids of the pages along a path.
pub open spec fn ids_of(s: Store, path: Seq<Seq<char>>) -> Seq<Seq<char>> {
    Seq::new(path.len(), |i: int| s.node_at(path[i]).id)
}

/// Law: content addressing. A blob's address is a function of its value
/// alone, so identical payloads always land on one address.
pub proof fn law_address_deterministic(b1: BlobView, b2: BlobView)
    ensures
        b1 == b2 ==> blob_address(b1) == blob_address(b2),
{
}

/// Law: content addressing, read side. After a write — whose contract says
/// the blob table gained exactly the binding from the blob's address to the
/// blob — reading that address yields the written blob back.
pub proof fn law_read_after_write(pre: Store, post: Store, b: BlobView, a: Seq<char>)
    requires
        a == blob_address(b),
        post.blobs() == pre.blobs().insert(a, b),
    ensures
        post.blobs().contains_key(a),
        post.blobs()[a] == b,
{
}

/// Law: commit path sharing. At every ancestor level the rewrite re-binds
/// only the changed child's id; every sibling keeps its id and its address.
pub proof fn law_commit_path_sharing(
    pages: Seq<PageView>,
    updated: PageView,
    i: int,
    k: Seq<char>,
)
    requires
        0 <= i < pages.len() - 1,
        unique_keys(pages[i].children),
        k != pages[i + 1].id,
    ensures
        assoc_map(new_page_at(pages, updated, i).children).contains_key(k) == assoc_map(
            pages[i].children,
        ).contains_key(k),
        assoc_map(pages[i].children).contains_key(k) ==> assoc_map(
            new_page_at(pages, updated, i).children,
        )[k] == assoc_map(pages[i].children)[k],
{
    lemma_pairs_insert_map(
        pages[i].children,
        pages[i + 1].id,
        blob_address(BlobView::Node(new_page_at(pages, updated, i + 1))),
    );
}

proof fn edit_identity_at(s: Store, path: Seq<Seq<char>>, i: int)
    requires
        s.wf(),
        linked(s, path),
        0 <= i < path.len(),
    ensures
        new_page_at(loaded_pages(s, path), s.node_at(path.last()), i) == loaded_pages(s, path)[i],
        new_addr_at(loaded_pages(s, path), s.node_at(path.last()), i) == path[i],
    decreases path.len() - i,
{
    let lp = loaded_pages(s, path);
    let leaf = s.node_at(path.last());
    s.lemma_stored_address(path[i]);
    assert(s.blobs()[path[i]] == BlobView::Node(s.node_at(path[i])));
    if i == path.len() - 1 {
        assert(new_page_at(lp, leaf, i) == leaf);
        assert(leaf == lp[i]);
    } else {
        edit_identity_at(s, path, i + 1);
        s.lemma_node_wf(path[i]);
        let base = lp[i].children;
        let cid = lp[i + 1].id;
        assert(child_link(s, path[i], path[i + 1]));
        lemma_assoc_contains(base, cid);
        let rk = key_rank(base, cid);
        assert(exists|j: int| 0 <= j < base.len() && base[j].0 == cid) by {
            lemma_assoc_contains(base, cid);
        }
        assert(0 <= rk < base.len() && base[rk].0 == cid);
        lemma_assoc_index(base, rk);
        assert(base[rk].1 == path[i + 1]);
        assert(pairs_insert(base, cid, path[i + 1]) =~= base);
        assert(new_page_at(lp, leaf, i) =~= lp[i]);
    }
}

/// Law: an edit that changes nothing commits a page byte-identical to the
/// stored one. Along a real root-to-page path, re-committing the page that
/// is already there rewrites every level to exactly the page already stored,
/// and in particular the new root address is the old version address.
pub proof fn law_edit_identity(s: Store, path: Seq<Seq<char>>)
    requires
        s.wf(),
        linked(s, path),
        path.len() > 0,
    ensures
        forall|i: int|
            0 <= i < path.len() ==> new_page_at(
                loaded_pages(s, path),
                s.node_at(path.last()),
                i,
            ) == loaded_pages(s, path)[i] && new_addr_at(
                loaded_pages(s, path),
                s.node_at(path.last()),
                i,
            ) == path[i],
        new_addr_at(loaded_pages(s, path), s.node_at(path.last()), 0) == path[0],
{
    assert forall|i: int| 0 <= i < path.len() implies new_page_at(
        loaded_pages(s, path),
        s.node_at(path.last()),
        i,
    ) == loaded_pages(s, path)[i] && new_addr_at(
        loaded_pages(s, path),
        s.node_at(path.last()),
        i,
    ) == path[i] by {
        edit_identity_at(s, path, i);
    }
}

proof fn descend_along(s: Store, path: Seq<Seq<char>>, k: int)
    requires
        s.wf(),
        linked(s, path),
        1 <= k <= path.len(),
    ensures
        spec_descend(s, path.take(k), ids_of(s, path).skip(k)) == Ok::<Seq<Seq<char>>, Error>(
            path,
        ),
    decreases path.len() - k,
{
    let ids = ids_of(s, path);
    if k == path.len() {
        assert(ids.skip(k) =~= Seq::<Seq<char>>::empty());
        assert(path.take(k) =~= path);
    } else {
        let cur = path.take(k);
        assert(cur.last() == path[k - 1]);
        assert(s.has_node(path[k - 1]));
        assert(child_link(s, path[k - 1], path[k]));
        assert(ids.skip(k)[0] == s.node_at(path[k]).id);
        assert(assoc_map(s.node_at(path[k - 1]).children)[ids.skip(k)[0]] == path[k]);
        assert(cur.push(path[k]) =~= path.take(k + 1));
        assert(ids.skip(k).drop_first() =~= ids.skip(k + 1));
        descend_along(s, path, k + 1);
        assert(spec_descend(s, cur, ids.skip(k)) == spec_descend(
            s,
            path.take(k + 1),
            ids.skip(k + 1),
        ));
    }
}

/// Law: history immutability and fork isolation. When a mutation's whole
/// effect on the named sequences is one version appended to its own branch —
/// the shape every commit-backed operation ensures — every branch's history
/// stays a prefix of what it becomes, never reordered or truncated, and
/// every other branch is left exactly as it was.
pub proof fn law_history_growth(
    pre: Map<Seq<char>, Seq<Seq<char>>>,
    post: Map<Seq<char>, Seq<Seq<char>>>,
    br: Seq<char>,
    a: Seq<char>,
)
    requires
        pre.contains_key(br),
        post == pre.insert(br, pre[br].push(a)),
    ensures
        forall|b: Seq<char>| #[trigger]
            pre.contains_key(b) ==> post.contains_key(b) && pre[b].is_prefix_of(post[b]),
        forall|b: Seq<char>| pre.contains_key(b) && b != br ==> post[b] == pre[b],
{
    assert forall|b: Seq<char>| #[trigger]
        pre.contains_key(b) implies post.contains_key(b) && pre[b].is_prefix_of(post[b]) by {
        assert(pre[b] =~= post[b].subrange(0, pre[b].len() as int));
    }
}

/// Law: locate determinism. Descending by the stable ids read off a linked
/// path — what `path_as_ids` returns for a location `locate_id` found —
/// reproduces exactly that path, so `locate` agrees with `locate_id`.
pub proof fn law_locate_determinism(s: Store, path: Seq<Seq<char>>)
    requires
        s.wf(),
        linked(s, path),
        path.len() > 0,
    ensures
        spec_descend(s, seq![path[0]], ids_of(s, path).drop_first()) == Ok::<
            Seq<Seq<char>>,
            Error,
        >(path),
{
    assert(path.take(1) =~= seq![path[0]]);
    assert(ids_of(s, path).skip(1) =~= ids_of(s, path).drop_first());
    descend_along(s, path, 1);
}

} // verus!
