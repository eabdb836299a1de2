use hrdb::controller;
use hrdb::dict::Dict;
use hrdb::errors::Error;
use hrdb::location::Location;
use hrdb::store::{Blob, Store};

fn text_of(b: &Blob) -> String {
    match b {
        Blob::Text(t) => t.clone(),
        Blob::Node(_) => panic!("expected a text blob"),
    }
}

fn head_root(store: &Store) -> Location {
    let stub = Location::from_branch(String::from("master"));
    let head = controller::head(store, &stub).unwrap();
    controller::root(&head).unwrap()
}

#[test]
fn content_addressing_same_bytes() {
    let mut store = Store::new();
    let a1 = store.write(Blob::Text(String::from("payload"))).unwrap();
    let a2 = store.write(Blob::Text(String::from("payload"))).unwrap();
    assert_eq!(a1, a2);
    let back = store.read(&a1).unwrap();
    assert_eq!(text_of(back), "payload");
}

#[test]
fn addresses_are_hex_digests() {
    let mut store = Store::new();
    let a = store.write(Blob::Text(String::from("abc"))).unwrap();
    assert_eq!(a.len(), 64);
    assert!(a.chars().all(|c| c.is_ascii_hexdigit() && !c.is_ascii_uppercase()));
    assert_ne!(a, "abc");
    let b = store.write(Blob::Text(String::from("abd"))).unwrap();
    assert_ne!(a, b);
}

#[test]
fn init_creates_master_with_home() {
    let mut store = Store::new();
    controller::init(&mut store).unwrap();
    let branches = controller::branches(&store).unwrap();
    assert_eq!(branches.len(), 1);
    assert_eq!(branches[0].branch(), "master");
    let stub = Location::from_branch(String::from("master"));
    let versions = controller::versions(&store, &stub).unwrap();
    assert_eq!(versions.len(), 1);
    let root = head_root(&store);
    let (title, content, fields) = controller::read(&store, &root).unwrap();
    assert_eq!(title, "Home");
    assert_eq!(content, "Check back soon.");
    assert_eq!(fields.len(), 0);
}

#[test]
fn init_twice_is_a_no_op() {
    let mut store = Store::new();
    controller::init(&mut store).unwrap();
    let stub = Location::from_branch(String::from("master"));
    let before = controller::versions(&store, &stub).unwrap();
    let head_before = controller::head(&store, &stub).unwrap();
    controller::init(&mut store).unwrap();
    let after = controller::versions(&store, &stub).unwrap();
    assert_eq!(before.len(), after.len());
    let head_after = controller::head(&store, &stub).unwrap();
    assert_eq!(head_before.path(), head_after.path());
}

#[test]
fn create_then_read_round_trip() {
    let mut store = Store::new();
    controller::init(&mut store).unwrap();
    let root = head_root(&store);
    let mut fields = Dict::new();
    fields.insert(String::from("lang"), String::from("en"));
    let child = controller::create(
        &mut store,
        &root,
        String::from("A"),
        String::from("hi"),
        fields,
    )
    .unwrap();
    let (title, content, got) = controller::read(&store, &child).unwrap();
    assert_eq!(title, "A");
    assert_eq!(content, "hi");
    assert_eq!(got.len(), 1);
    assert_eq!(got.get(&String::from("lang")).unwrap(), "en");
}

#[test]
fn empty_edit_leaves_page_identical() {
    let mut store = Store::new();
    controller::init(&mut store).unwrap();
    let root = head_root(&store);
    controller::create(
        &mut store,
        &root,
        String::from("A"),
        String::from("hi"),
        Dict::new(),
    )
    .unwrap();
    let stub = Location::from_branch(String::from("master"));
    let head_before = controller::head(&store, &stub).unwrap();
    let root2 = head_root(&store);
    let a_loc = &controller::children(&store, &root2).unwrap()[0];
    controller::edit(&mut store, a_loc, None, None, None).unwrap();
    let versions = controller::versions(&store, &stub).unwrap();
    assert_eq!(versions.len(), 3);
    let head_after = controller::head(&store, &stub).unwrap();
    // the rewritten version is byte-identical, so its address is unchanged
    assert_eq!(head_before.path(), head_after.path());
}

#[test]
fn edit_changes_only_supplied_parts() {
    let mut store = Store::new();
    controller::init(&mut store).unwrap();
    let root = head_root(&store);
    controller::create(
        &mut store,
        &root,
        String::from("A"),
        String::from("hi"),
        Dict::new(),
    )
    .unwrap();
    let root2 = head_root(&store);
    let a_loc = &controller::children(&store, &root2).unwrap()[0];
    controller::edit(
        &mut store,
        a_loc,
        None,
        Some(String::from("rewritten")),
        None,
    )
    .unwrap();
    let root3 = head_root(&store);
    let a_new = &controller::children(&store, &root3).unwrap()[0];
    let (title, content, _) = controller::read(&store, a_new).unwrap();
    assert_eq!(title, "A");
    assert_eq!(content, "rewritten");
}

#[test]
fn stale_commit_is_rejected_and_head_unchanged() {
    let mut store = Store::new();
    controller::init(&mut store).unwrap();
    let old_root = head_root(&store);
    controller::create(
        &mut store,
        &old_root,
        String::from("A"),
        String::from("hi"),
        Dict::new(),
    )
    .unwrap();
    let stub = Location::from_branch(String::from("master"));
    let before = controller::versions(&store, &stub).unwrap();
    // old_root still points at the first version, which is no longer head
    let r = controller::edit(&mut store, &old_root, Some(String::from("X")), None, None);
    assert_eq!(r.unwrap_err(), Error::StaleVersion);
    let after = controller::versions(&store, &stub).unwrap();
    assert_eq!(before.len(), after.len());
    assert_eq!(
        before.last().unwrap().path(),
        after.last().unwrap().path()
    );
}

#[test]
fn delete_leaves_parent_without_children() {
    let mut store = Store::new();
    controller::init(&mut store).unwrap();
    let root = head_root(&store);
    controller::create(
        &mut store,
        &root,
        String::from("A"),
        String::from("hi"),
        Dict::new(),
    )
    .unwrap();
    let stub = Location::from_branch(String::from("master"));
    assert_eq!(controller::versions(&store, &stub).unwrap().len(), 2);
    let a_loc = controller::children(&store, &head_root(&store)).unwrap().remove(0);
    controller::create(
        &mut store,
        &a_loc,
        String::from("B"),
        String::from("yo"),
        Dict::new(),
    )
    .unwrap();
    assert_eq!(controller::versions(&store, &stub).unwrap().len(), 3);
    let a_now = controller::children(&store, &head_root(&store)).unwrap().remove(0);
    let b_now = controller::children(&store, &a_now).unwrap().remove(0);
    controller::delete(&mut store, &b_now).unwrap();
    // one commit per mutation: three commits after init, not more
    assert_eq!(controller::versions(&store, &stub).unwrap().len(), 4);
    let a_final = controller::children(&store, &head_root(&store)).unwrap().remove(0);
    let (title, _, _) = controller::read(&store, &a_final).unwrap();
    assert_eq!(title, "A");
    assert_eq!(controller::children(&store, &a_final).unwrap().len(), 0);
}

#[test]
fn fork_truncates_history_and_isolates_branches() {
    let mut store = Store::new();
    controller::init(&mut store).unwrap();
    let root = head_root(&store);
    controller::create(
        &mut store,
        &root,
        String::from("A"),
        String::from("hi"),
        Dict::new(),
    )
    .unwrap();
    let stub = Location::from_branch(String::from("master"));
    let master_versions = controller::versions(&store, &stub).unwrap();
    assert_eq!(master_versions.len(), 2);

    // fork at the first version: the new branch gets the truncated prefix
    let at_v1 = controller::root(&master_versions[0]).unwrap();
    let into = Location::from_branch(String::from("early"));
    controller::fork(&mut store, &at_v1, &into).unwrap();
    let early = controller::versions(&store, &into).unwrap();
    assert_eq!(early.len(), 1);
    assert_eq!(early[0].path(), master_versions[0].path());

    // fork at the head: full history is carried over
    let at_head = head_root(&store);
    let feature = Location::from_branch(String::from("feature"));
    controller::fork(&mut store, &at_head, &feature).unwrap();
    let fv = controller::versions(&store, &feature).unwrap();
    assert_eq!(fv.len(), 2);

    // mutate the fork; master's history must not move
    let fhead = controller::head(&store, &feature).unwrap();
    let froot = controller::root(&fhead).unwrap();
    controller::create(
        &mut store,
        &froot,
        String::from("F"),
        String::from("forked"),
        Dict::new(),
    )
    .unwrap();
    let master_after = controller::versions(&store, &stub).unwrap();
    assert_eq!(master_after.len(), 2);
    for (a, b) in master_versions.iter().zip(master_after.iter()) {
        assert_eq!(a.path(), b.path());
    }
    assert_eq!(controller::versions(&store, &feature).unwrap().len(), 3);
    // both forks were registered in the branch registry
    let names: Vec<String> = controller::branches(&store)
        .unwrap()
        .iter()
        .map(|l| l.branch().clone())
        .collect();
    assert_eq!(names, vec!["master", "early", "feature"]);
}

#[test]
fn fork_into_existing_branch_is_refused() {
    let mut store = Store::new();
    controller::init(&mut store).unwrap();
    let at_head = head_root(&store);
    let into = Location::from_branch(String::from("master"));
    let r = controller::fork(&mut store, &at_head, &into);
    assert_eq!(r.unwrap_err(), Error::BranchAlreadyExists);
}

#[test]
fn locate_agrees_with_locate_id() {
    let mut store = Store::new();
    controller::init(&mut store).unwrap();
    let root = head_root(&store);
    controller::create(
        &mut store,
        &root,
        String::from("A"),
        String::from("hi"),
        Dict::new(),
    )
    .unwrap();
    let a_loc = controller::children(&store, &head_root(&store)).unwrap().remove(0);
    controller::create(
        &mut store,
        &a_loc,
        String::from("B"),
        String::from("yo"),
        Dict::new(),
    )
    .unwrap();
    let version = head_root(&store);
    let a_now = controller::children(&store, &version).unwrap().remove(0);
    let b_now = controller::children(&store, &a_now).unwrap().remove(0);
    let b_ids = controller::path_as_ids(&store, &b_now).unwrap();
    let b_id = b_ids.last().unwrap().clone();

    let found = controller::locate_id(&store, &version, &b_id).unwrap();
    let ids = controller::path_as_ids(&store, &found).unwrap();
    let again = controller::locate(&store, &version, &ids).unwrap();
    assert_eq!(found.branch(), again.branch());
    assert_eq!(found.path(), again.path());
    assert_eq!(found.path(), b_now.path());
}

#[test]
fn locate_id_misses_with_page_not_found() {
    let mut store = Store::new();
    controller::init(&mut store).unwrap();
    let version = head_root(&store);
    let r = controller::locate_id(&store, &version, &String::from("no-such-id"));
    assert_eq!(r.unwrap_err(), Error::PageNotFound);
}

#[test]
fn locate_fails_on_missing_child() {
    let mut store = Store::new();
    controller::init(&mut store).unwrap();
    let version = head_root(&store);
    let root_ids = controller::path_as_ids(&store, &version).unwrap();
    let ids = vec![root_ids[0].clone(), String::from("nope")];
    let r = controller::locate(&store, &version, &ids);
    assert_eq!(r.unwrap_err(), Error::ChildNotFound);
}

#[test]
fn unknown_branch_and_empty_locations_error() {
    let mut store = Store::new();
    controller::init(&mut store).unwrap();
    let stub = Location::from_branch(String::from("ghost"));
    assert_eq!(controller::versions(&store, &stub).unwrap_err(), Error::BranchNotFound);
    assert_eq!(controller::head(&store, &stub).unwrap_err(), Error::BranchNotFound);
    assert_eq!(controller::root(&stub).unwrap_err(), Error::EmptyLocation);
    assert_eq!(stub.version().unwrap_err(), Error::EmptyLocation);
    assert_eq!(stub.end().unwrap_err(), Error::EmptyLocation);
    assert_eq!(stub.back().unwrap_err(), Error::InvalidPath);
    assert_eq!(stub.forward(String::from("x")).unwrap_err(), Error::InvalidPath);
}

#[test]
fn head_on_empty_branch_reports_no_versions() {
    let mut store = Store::new();
    let name = String::from("bare");
    store.ensure(&name);
    let stub = Location::from_branch(String::from("bare"));
    assert_eq!(controller::head(&store, &stub).unwrap_err(), Error::NoVersions);
}

#[test]
fn read_at_dangling_address_misses() {
    let mut store = Store::new();
    controller::init(&mut store).unwrap();
    let loc = Location::from_branch_and_version(
        String::from("master"),
        String::from("not-an-address"),
    );
    assert_eq!(controller::read(&store, &loc).unwrap_err(), Error::NotFound);
}

#[test]
fn shorthand_tracks_master_pages() {
    let mut store = Store::new();
    controller::init(&mut store).unwrap();
    let home = store.shorthand().get(&String::from("Home")).unwrap();
    assert_eq!(home.0, 0);
    assert_eq!(home.2, "master");
    let root = head_root(&store);
    controller::create(
        &mut store,
        &root,
        String::from("My Page"),
        String::from("hi"),
        Dict::new(),
    )
    .unwrap();
    // titles are normalized into permalink-safe short keys
    let entry = store.shorthand().get(&String::from("My-Page")).unwrap();
    assert_eq!(entry.0, 1);
}

#[test]
fn relocate_attaches_then_reports_the_stale_detach() {
    let mut store = Store::new();
    controller::init(&mut store).unwrap();
    let root = head_root(&store);
    controller::create(
        &mut store,
        &root,
        String::from("A"),
        String::from("hi"),
        Dict::new(),
    )
    .unwrap();
    let root2 = head_root(&store);
    controller::create(
        &mut store,
        &root2,
        String::from("B"),
        String::from("yo"),
        Dict::new(),
    )
    .unwrap();
    let version = head_root(&store);
    let kids = controller::children(&store, &version).unwrap();
    assert_eq!(kids.len(), 2);
    let a_loc = kids[0].path().clone();
    let b_loc = kids[1].path().clone();
    let a = Location::from_branch_and_path(String::from("master"), a_loc);
    let b = Location::from_branch_and_path(String::from("master"), b_loc);
    // within one branch the second, detaching commit is always stale: the
    // attach succeeded and moved the head first
    let r = controller::relocate(&mut store, &b, &a);
    assert_eq!(r.unwrap_err(), Error::StaleVersion);
    // the attach went through: in the new head, A carries B...
    let a_now = controller::children(&store, &head_root(&store)).unwrap().remove(0);
    let under_a = controller::children(&store, &a_now).unwrap();
    assert_eq!(under_a.len(), 1);
    let (title, _, _) = controller::read(&store, &under_a[0]).unwrap();
    assert_eq!(title, "B");
    // ...while B also stays reachable at its old place, as documented
    assert_eq!(controller::children(&store, &head_root(&store)).unwrap().len(), 2);
}

#[test]
fn decimal_rendering_is_exact() {
    assert_eq!(hrdb::text::decimal(0), "0");
    assert_eq!(hrdb::text::decimal(7), "7");
    assert_eq!(hrdb::text::decimal(1234), "1234");
    assert_eq!(hrdb::text::decimal(u64::MAX), "18446744073709551615");
}

#[test]
fn fork_from_unknown_branch_is_refused() {
    let mut store = Store::new();
    controller::init(&mut store).unwrap();
    let from = Location::from_branch_and_version(String::from("ghost"), String::from("v"));
    let into = Location::from_branch(String::from("fresh"));
    assert_eq!(controller::fork(&mut store, &from, &into).unwrap_err(), Error::BranchNotFound);
}

#[test]
fn page_lookup_at_text_address_is_corrupt() {
    let mut store = Store::new();
    controller::init(&mut store).unwrap();
    let version = head_root(&store);
    let root_addr = version.path()[0].clone();
    let content_addr = match store.read(&root_addr).unwrap() {
        Blob::Node(p) => p.content.clone(),
        Blob::Text(_) => panic!("the version root must be a page"),
    };
    let loc = Location::from_branch_and_path(String::from("master"), vec![content_addr]);
    assert_eq!(controller::title(&store, &loc).unwrap_err(), Error::CorruptPage);
}
