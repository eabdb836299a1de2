//! The log/blob store: an in-memory, append-only backend.
//!
//! Blobs (text payloads and serialized pages) live under content-derived
//! addresses and are never overwritten; named sequences (branches and the
//! branch registry) only grow; the shorthand index is the one named value that
//! is replaced wholesale.
//!
//! The store's well-formedness ties every stored page to its children: a
//! child entry names a page that was written earlier, under the child's own
//! id. That is what makes every tree traversal terminate and every child
//! lookup meaningful.

use vstd::prelude::*;

use crate::assoc::{assoc_map, key_rank, lemma_assoc_contains, lemma_assoc_index,
    lemma_assoc_insert_same, lemma_assoc_prefix, lemma_assoc_push, lemma_assoc_update,
    unique_keys};
use crate::errors::Error;
use crate::hash::{address_of, spec_address};
use crate::page::{spec_block, spec_encode_page, Page, PageView};
use crate::shorthand::{Shorthand, ShortTarget};
use crate::text::spec_decimal;

verus! {

/// A stored value: a text payload or a tree node.
pub enum Blob {
    Text(String),
    Node(Page),
}

/// The mathematical reading of a stored value.
#[verifier::ext_equal]
pub enum BlobView {
    Text(Seq<char>),
    Node(PageView),
}

impl View for Blob {
    type V = BlobView;

    open spec fn view(&self) -> BlobView {
        match self {
            Blob::Text(t) => BlobView::Text(t@),
            Blob::Node(p) => BlobView::Node(p@),
        }
    }
}

/// The page carried by a node blob.
pub open spec fn node_page(b: BlobView) -> PageView {
    b->Node_0
}

/// The serialized form of a blob.
pub open spec fn spec_encode_blob(b: BlobView) -> Seq<char> {
    match b {
        BlobView::Text(t) => seq!['T'] + spec_block(t),
        BlobView::Node(p) => spec_encode_page(p),
    }
}

/// The content address a blob is stored under.
pub open spec fn blob_address(b: BlobView) -> Seq<char> {
    spec_address(spec_encode_blob(b))
}

impl Blob {
    /// The node's tables have unique keys; texts are always well formed.
    pub open spec fn wf(&self) -> bool {
        match self {
            Blob::Text(_) => true,
            Blob::Node(p) => p.wf(),
        }
    }

    /// The serialized form written to the store.
    pub fn encode(&self) -> (r: String)
        ensures
            r@ == spec_encode_blob(self@),
    {
        match self {
            Blob::Text(t) => {
                let mut out = String::new();
                out.push('T');
                let n = t.as_str().unicode_len();
                let d = crate::text::decimal(n as u64);
                out.append(d.as_str());
                out.push(':');
                out.append(t.as_str());
                proof {
                    assert(out@ =~= seq!['T'] + spec_block(t@));
                }
                out
            },
            Blob::Node(p) => p.encode(),
        }
    }

    /// The content address of this blob.
    pub fn address(&self) -> (r: String)
        ensures
            r@ == blob_address(self@),
    {
        let enc = self.encode();
        address_of(&enc)
    }

    /// Whether two blobs have the same reading.
    pub fn equals(&self, other: &Blob) -> (r: bool)
        ensures
            r == (self@ == other@),
    {
        match (self, other) {
            (Blob::Text(a), Blob::Text(b)) => *a == *b,
            (Blob::Node(a), Blob::Node(b)) => {
                let r = a.id == b.id && a.title == b.title && a.content == b.content
                    && a.children.equals(&b.children) && a.fields.equals(&b.fields);
                proof {
                    if r {
                        assert(a@ =~= b@);
                    }
                }
                r
            },
            _ => false,
        }
    }

    /// A copy whose view is identical.
    pub fn duplicate(&self) -> (r: Blob)
        ensures
            r@ == self@,
            self.wf() ==> r.wf(),
    {
        match self {
            Blob::Text(t) => Blob::Text(t.clone()),
            Blob::Node(p) => Blob::Node(p.duplicate()),
        }
    }
}

/// The in-memory backend: content-addressed blobs, named append-only
/// sequences, the shorthand index, and a counter that issues page ids.
pub struct Store {
    kv: Vec<(String, Blob)>,
    logs: Vec<(String, Vec<String>)>,
    table: Shorthand,
    counter: u64,
}

impl Store {
    /// The blob table, in write order.
    pub closed spec fn kv_entries(&self) -> Seq<(Seq<char>, BlobView)> {
        self.kv@.map_values(|p: (String, Blob)| (p.0@, p.1@))
    }

    /// The blob table read as a map from address to blob.
    pub open spec fn blobs(&self) -> Map<Seq<char>, BlobView> {
        assoc_map(self.kv_entries())
    }

    /// The named sequences, in creation order.
    pub closed spec fn log_entries(&self) -> Seq<(Seq<char>, Seq<Seq<char>>)> {
        self.logs@.map_values(|p: (String, Vec<String>)| (p.0@, p.1.deep_view()))
    }

    /// The named sequences read as a map.
    pub open spec fn logs(&self) -> Map<Seq<char>, Seq<Seq<char>>> {
        assoc_map(self.log_entries())
    }

    /// The shorthand index table.
    pub closed spec fn shorthand_view(&self) -> Seq<(Seq<char>, ShortTarget)> {
        self.table@
    }

    /// The shorthand index read as a map.
    pub open spec fn shorthand_map(&self) -> Map<Seq<char>, ShortTarget> {
        assoc_map(self.shorthand_view())
    }

    /// The id counter.
    pub closed spec fn id_counter(&self) -> u64 {
        self.counter
    }

    /// An address resolves to a node blob.
    pub open spec fn has_node(&self, a: Seq<char>) -> bool {
        self.blobs().contains_key(a) && self.blobs()[a] is Node
    }

    /// The page stored at an address.
    pub open spec fn node_at(&self, a: Seq<char>) -> PageView {
        node_page(self.blobs()[a])
    }

    /// The write position of an address, the measure every traversal
    /// decreases.
    pub open spec fn rank(&self, a: Seq<char>) -> int {
        key_rank(self.kv_entries(), a)
    }

    /// One child entry of the node at position `i` points at a node written
    /// earlier, stored under the child's own id.
    pub open spec fn child_ok(&self, i: int, c: (Seq<char>, Seq<char>)) -> bool {
        exists|j: int|
            0 <= j < i && (#[trigger] self.kv_entries()[j]).0 == c.1 && self.kv_entries()[j].1
                is Node && node_page(self.kv_entries()[j].1).id == c.0
    }

    /// The entry at position `i` is internally consistent.
    pub open spec fn entry_ok(&self, i: int) -> bool {
        let (a, b) = self.kv_entries()[i];
        a == blob_address(b) && (b is Node ==> {
            let p = node_page(b);
            unique_keys(p.children) && unique_keys(p.fields) && forall|k: int|
                0 <= k < p.children.len() ==> self.child_ok(i, #[trigger] p.children[k])
        })
    }

    /// The store invariant: unique keys everywhere, addresses derived from
    /// content, children written before their parents.
    pub open spec fn wf(&self) -> bool {
        unique_keys(self.kv_entries()) && unique_keys(self.log_entries()) && unique_keys(self.shorthand_view())
            && forall|i: int| 0 <= i < self.kv_entries().len() ==> self.entry_ok(i)
    }

    /// A blob may be written: a node's children must already be stored under
    /// their ids.
    pub open spec fn can_write(&self, b: BlobView) -> bool {
        b is Node ==> {
            let p = node_page(b);
            unique_keys(p.children) && unique_keys(p.fields) && forall|k: int|
                0 <= k < p.children.len() ==> {
                    let c = #[trigger] p.children[k];
                    self.has_node(c.1) && self.node_at(c.1).id == c.0
                }
        }
    }

    /// Well-formedness only looks at the blob table through its entries: any
    /// store with the same blob entries and unique names elsewhere is as well
    /// formed.
    pub proof fn lemma_wf_same_kv(pre: Store, post: Store)
        requires
            pre.wf(),
            post.kv_entries() == pre.kv_entries(),
            unique_keys(post.log_entries()),
            unique_keys(post.shorthand_view()),
        ensures
            post.wf(),
    {
        assert forall|i: int| 0 <= i < post.kv_entries().len() implies post.entry_ok(i) by {
            assert(pre.entry_ok(i));
            if post.kv_entries()[i].1 is Node {
                let p = node_page(post.kv_entries()[i].1);
                assert forall|k: int| 0 <= k < p.children.len() implies post.child_ok(
                    i,
                    #[trigger] p.children[k],
                ) by {
                    assert(pre.child_ok(i, p.children[k]));
                    let c = p.children[k];
                    let j = choose|j: int|
                        0 <= j < i && (#[trigger] pre.kv_entries()[j]).0 == c.1
                            && pre.kv_entries()[j].1 is Node && node_page(
                            pre.kv_entries()[j].1,
                        ).id == c.0;
                    assert(post.kv_entries()[j] == pre.kv_entries()[j]);
                }
            }
        }
    }

    /// Growing the blob table never changes or drops what was stored.
    pub proof fn lemma_extends(pre: Store, post: Store)
        requires
            post.wf(),
            pre.kv_entries().is_prefix_of(post.kv_entries()),
        ensures
            forall|a: Seq<char>| #[trigger]
                pre.blobs().contains_key(a) ==> post.blobs().contains_key(a) && post.blobs()[a]
                    == pre.blobs()[a],
    {
        lemma_assoc_prefix(pre.kv_entries(), post.kv_entries());
    }

    /// A page already stored may always be written again as it stands.
    pub proof fn lemma_stored_can_write(&self, a: Seq<char>)
        requires
            self.wf(),
            self.has_node(a),
        ensures
            self.can_write(self.blobs()[a]),
            unique_keys(self.node_at(a).children),
            unique_keys(self.node_at(a).fields),
    {
        self.lemma_node_wf(a);
        assert forall|k: int| 0 <= k < self.node_at(a).children.len() implies {
            let c = #[trigger] self.node_at(a).children[k];
            self.has_node(c.1) && self.node_at(c.1).id == c.0
        } by {
            self.lemma_node_children(a, k);
        }
    }

    /// A fresh, empty store.
    pub fn new() -> (s: Store)
        ensures
            s.wf(),
            s.blobs() == Map::<Seq<char>, BlobView>::empty(),
            s.logs() == Map::<Seq<char>, Seq<Seq<char>>>::empty(),
            s.kv_entries() == Seq::<(Seq<char>, BlobView)>::empty(),
            s.log_entries() == Seq::<(Seq<char>, Seq<Seq<char>>)>::empty(),
            s.shorthand_view() == Seq::<(Seq<char>, ShortTarget)>::empty(),
            s.id_counter() == 0,
    {
        let s = Store { kv: Vec::new(), logs: Vec::new(), table: Shorthand::empty(), counter: 0 };
        proof {
            assert(s.kv_entries() =~= Seq::<(Seq<char>, BlobView)>::empty());
            assert(s.log_entries() =~= Seq::<(Seq<char>, Seq<Seq<char>>)>::empty());
            assert(s.blobs() =~= Map::<Seq<char>, BlobView>::empty());
            assert(s.logs() =~= Map::<Seq<char>, Seq<Seq<char>>>::empty());
        }
        s
    }

    /// Every node's children resolve to earlier-written nodes carrying the
    /// child's id: the link every traversal relies on.
    pub proof fn lemma_node_children(&self, a: Seq<char>, k: int)
        requires
            self.wf(),
            self.has_node(a),
            0 <= k < self.node_at(a).children.len(),
        ensures
            self.has_node(self.node_at(a).children[k].1),
            self.node_at(self.node_at(a).children[k].1).id == self.node_at(a).children[k].0,
            self.rank(self.node_at(a).children[k].1) < self.rank(a),
            0 <= self.rank(self.node_at(a).children[k].1),
            self.rank(a) < self.kv_entries().len(),
    {
        let s = self.kv_entries();
        lemma_assoc_contains(s, a);
        let i = choose|i: int| 0 <= i < s.len() && s[i].0 == a;
        lemma_assoc_index(s, i);
        assert(self.entry_ok(i));
        let c = self.node_at(a).children[k];
        let j = choose|j: int|
            0 <= j < i && (#[trigger] s[j]).0 == c.1 && s[j].1 is Node && node_page(s[j].1).id
                == c.0;
        lemma_assoc_index(s, j);
        assert(0 <= self.rank(a) < s.len() && s[self.rank(a)].0 == a) by {
            assert(s[i].0 == a);
        }
        assert(0 <= self.rank(c.1) < s.len() && s[self.rank(c.1)].0 == c.1) by {
            assert(s[j].0 == c.1);
        }
        assert(self.rank(a) == i);
        assert(self.rank(c.1) == j);
    }

    /// A well-formed store keys every node's tables uniquely.
    pub proof fn lemma_node_wf(&self, a: Seq<char>)
        requires
            self.wf(),
            self.has_node(a),
        ensures
            unique_keys(self.node_at(a).children),
            unique_keys(self.node_at(a).fields),
    {
        let s = self.kv_entries();
        lemma_assoc_contains(s, a);
        let i = choose|i: int| 0 <= i < s.len() && s[i].0 == a;
        lemma_assoc_index(s, i);
        assert(self.entry_ok(i));
    }

    /// Stored blobs sit under the address of their own serialized form.
    pub proof fn lemma_stored_address(&self, a: Seq<char>)
        requires
            self.wf(),
            self.blobs().contains_key(a),
        ensures
            a == blob_address(self.blobs()[a]),
    {
        let s = self.kv_entries();
        lemma_assoc_contains(s, a);
        let i = choose|i: int| 0 <= i < s.len() && s[i].0 == a;
        lemma_assoc_index(s, i);
        assert(self.entry_ok(i));
    }

    /// The position of an address in the blob table.
    fn kv_position(&self, key: &String) -> (r: Option<usize>)
        ensures
            match r {
                Some(i) => i < self.kv_entries().len() && self.kv_entries()[i as int].0 == key@,
                None => forall|i: int|
                    0 <= i < self.kv_entries().len() ==> self.kv_entries()[i].0 != key@,
            },
    {
        let n = self.kv.len();
        for i in 0..n
            invariant
                n == self.kv@.len() == self.kv_entries().len(),
                forall|j: int| 0 <= j < i ==> self.kv_entries()[j].0 != key@,
        {
            assert(self.kv_entries()[i as int].0 == self.kv@[i as int].0@);
            if self.kv[i].0 == *key {
                return Some(i);
            }
        }
        None
    }

    /// The position of a name in the named sequences.
    fn log_position(&self, name: &String) -> (r: Option<usize>)
        ensures
            match r {
                Some(i) => i < self.log_entries().len() && self.log_entries()[i as int].0 == name@,
                None => forall|i: int|
                    0 <= i < self.log_entries().len() ==> self.log_entries()[i].0 != name@,
            },
    {
        let n = self.logs.len();
        for i in 0..n
            invariant
                n == self.logs@.len() == self.log_entries().len(),
                forall|j: int| 0 <= j < i ==> self.log_entries()[j].0 != name@,
        {
            assert(self.log_entries()[i as int].0 == self.logs@[i as int].0@);
            if self.logs[i].0 == *name {
                return Some(i);
            }
        }
        None
    }

    /// Content-addressed, idempotent put. Writing bytes already stored is a
    /// no-op; two distinct payloads can never share an address, and an
    /// attempt to do so is refused rather than letting history be rewritten.
    pub fn write(&mut self, blob: Blob) -> (r: Result<String, Error>)
        requires
            old(self).wf(),
            blob.wf(),
            old(self).can_write(blob@),
        ensures
            final(self).wf(),
            final(self).log_entries() == old(self).log_entries(),
            final(self).shorthand_view() == old(self).shorthand_view(),
            final(self).id_counter() == old(self).id_counter(),
            old(self).kv_entries().is_prefix_of(final(self).kv_entries()),
            match r {
                Ok(a) => a@ == blob_address(blob@) && final(self).blobs() == old(
                    self,
                ).blobs().insert(a@, blob@) && (old(self).blobs().contains_key(a@) ==> old(
                    self,
                ).blobs()[a@] == blob@),
                Err(e) => e == Error::AddressCollision && final(self).kv_entries() == old(self).kv_entries() && old(self).blobs().contains_key(blob_address(blob@)) && old(self).blobs()[blob_address(blob@)] != blob@,
            },
    {
        let addr = blob.address();
        match self.kv_position(&addr) {
            Some(i) => {
                proof {
                    lemma_assoc_index(self.kv_entries(), i as int);
                }
                if self.kv[i].1.equals(&blob) {
                    proof {
                        lemma_assoc_insert_same(self.kv_entries(), i as int);
                    }
                    assert(self.kv_entries()[i as int].1 == self.kv@[i as int].1@);
                    Ok(addr)
                } else {
                    assert(self.kv_entries()[i as int].1 == self.kv@[i as int].1@);
                    Err(Error::AddressCollision)
                }
            },
            None => {
                proof {
                    lemma_assoc_contains(self.kv_entries(), addr@);
                    lemma_assoc_push(self.kv_entries(), addr@, blob@);
                }
                let ghost prev = self.kv_entries();
                self.kv.push((addr.clone(), blob));
                proof {
                    assert(self.kv_entries() =~= prev.push((addr@, self.kv@.last().1@)));
                    let s = self.kv_entries();
                    let n = s.len() - 1;
                    assert(forall|i: int| 0 <= i < n ==> s[i] == prev[i]);
                    assert forall|i: int| 0 <= i < s.len() implies self.entry_ok(i) by {
                        if i < n {
                            assert(old(self).entry_ok(i));
                            assert forall|k: int|
                                s[i].1 is Node && 0 <= k < node_page(s[i].1).children.len()
                                    implies self.child_ok(i, node_page(s[i].1).children[k]) by {
                                assert(old(self).child_ok(i, node_page(prev[i].1).children[k]));
                                let j = choose|j: int|
                                    0 <= j < i && (#[trigger] prev[j]).0 == node_page(
                                        prev[i].1,
                                    ).children[k].1 && prev[j].1 is Node && node_page(
                                        prev[j].1,
                                    ).id == node_page(prev[i].1).children[k].0;
                                assert(s[j] == prev[j]);
                            }
                        } else {
                            if s[i].1 is Node {
                                let p = node_page(s[i].1);
                                assert forall|k: int|
                                    0 <= k < p.children.len() implies self.child_ok(
                                    i,
                                    p.children[k],
                                ) by {
                                    let c = p.children[k];
                                    assert(old(self).has_node(c.1) && old(self).node_at(c.1).id
                                        == c.0);
                                    lemma_assoc_contains(prev, c.1);
                                    let j = choose|j: int|
                                        0 <= j < prev.len() && (#[trigger] prev[j]).0 == c.1;
                                    lemma_assoc_index(prev, j);
                                    assert(s[j] == prev[j]);
                                }
                            }
                        }
                    }
                }
                Ok(addr)
            },
        }
    }

    /// Fetches the blob stored under a key.
    pub fn read(&self, key: &String) -> (r: Result<&Blob, Error>)
        requires
            self.wf(),
        ensures
            match r {
                Ok(b) => self.blobs().contains_key(key@) && b@ == self.blobs()[key@],
                Err(e) => e == Error::NotFound && !self.blobs().contains_key(key@),
            },
    {
        proof {
            lemma_assoc_contains(self.kv_entries(), key@);
        }
        match self.kv_position(key) {
            Some(i) => {
                proof {
                    lemma_assoc_index(self.kv_entries(), i as int);
                }
                assert(self.kv_entries()[i as int].1 == self.kv@[i as int].1@);
                Ok(&self.kv[i].1)
            },
            None => Err(Error::NotFound),
        }
    }

    /// The current contents of a named sequence, in append order.
    pub fn list(&self, name: &String) -> (r: Result<&Vec<String>, Error>)
        requires
            self.wf(),
        ensures
            match r {
                Ok(v) => self.logs().contains_key(name@) && v.deep_view() == self.logs()[name@],
                Err(e) => e == Error::NotFound && !self.logs().contains_key(name@),
            },
    {
        proof {
            lemma_assoc_contains(self.log_entries(), name@);
        }
        match self.log_position(name) {
            Some(i) => {
                proof {
                    lemma_assoc_index(self.log_entries(), i as int);
                }
                assert(self.log_entries()[i as int].1 == self.logs@[i as int].1.deep_view());
                Ok(&self.logs[i].1)
            },
            None => Err(Error::NotFound),
        }
    }

    /// Whether a named sequence exists.
    pub fn has_log(&self, name: &String) -> (r: bool)
        requires
            self.wf(),
        ensures
            r == self.logs().contains_key(name@),
    {
        proof {
            lemma_assoc_contains(self.log_entries(), name@);
        }
        self.log_position(name).is_some()
    }

    /// Creates a named sequence if it is absent; otherwise does nothing.
    pub fn ensure(&mut self, name: &String)
        requires
            old(self).wf(),
        ensures
            final(self).wf(),
            final(self).kv_entries() == old(self).kv_entries(),
            final(self).shorthand_view() == old(self).shorthand_view(),
            final(self).id_counter() == old(self).id_counter(),
            old(self).log_entries().is_prefix_of(final(self).log_entries()),
            final(self).logs() == if old(self).logs().contains_key(name@) {
                old(self).logs()
            } else {
                old(self).logs().insert(name@, Seq::<Seq<char>>::empty())
            },
    {
        proof {
            lemma_assoc_contains(self.log_entries(), name@);
        }
        match self.log_position(name) {
            Some(_) => {
                proof {
                    assert(old(self).logs().contains_key(name@));
                }
            },
            None => {
                proof {
                    lemma_assoc_push(self.log_entries(), name@, Seq::<Seq<char>>::empty());
                }
                let ghost prev = self.log_entries();
                let empty: Vec<String> = Vec::new();
                self.logs.push((name.clone(), empty));
                proof {
                    assert(self.logs@.last().1.deep_view() =~= Seq::<Seq<char>>::empty());
                    assert(self.log_entries() =~= prev.push((name@, Seq::<Seq<char>>::empty())));
                    Store::lemma_wf_same_kv(*old(self), *self);
                }
            },
        }
    }

    /// Appends one element to a named sequence.
    pub fn push(&mut self, name: &String, value: String) -> (r: Result<(), Error>)
        requires
            old(self).wf(),
        ensures
            final(self).wf(),
            final(self).kv_entries() == old(self).kv_entries(),
            final(self).shorthand_view() == old(self).shorthand_view(),
            final(self).id_counter() == old(self).id_counter(),
            match r {
                Ok(_) => old(self).logs().contains_key(name@) && final(self).logs() == old(self).logs().insert(name@, old(self).logs()[name@].push(value@)),
                Err(e) => e == Error::NotFound && !old(self).logs().contains_key(name@) && final(self).log_entries() == old(self).log_entries(),
            },
    {
        proof {
            lemma_assoc_contains(self.log_entries(), name@);
        }
        match self.log_position(name) {
            Some(i) => {
                proof {
                    lemma_assoc_index(self.log_entries(), i as int);
                    lemma_assoc_update(
                        self.log_entries(),
                        i as int,
                        old(self).logs()[name@].push(value@),
                    );
                }
                let ghost prev = self.log_entries();
                let (n, mut vs) = self.logs.remove(i);
                vs.push(value);
                self.logs.insert(i, (n, vs));
                proof {
                    assert(self.logs@[i as int].1.deep_view() =~= prev[i as int].1.push(
                        self.logs@[i as int].1@.last()@,
                    ));
                    assert(self.log_entries() =~= prev.update(
                        i as int,
                        (prev[i as int].0, prev[i as int].1.push(
                            self.logs@[i as int].1@.last()@,
                        )),
                    ));
                    assert(forall|j: int|
                        0 <= j < self.log_entries().len() ==> (#[trigger] self.log_entries()[j]).0
                            == prev[j].0);
                    Store::lemma_wf_same_kv(*old(self), *self);
                }
                Ok(())
            },
            None => Err(Error::NotFound),
        }
    }

    /// Appends many elements to a named sequence.
    pub fn append(&mut self, name: &String, values: Vec<String>) -> (r: Result<(), Error>)
        requires
            old(self).wf(),
        ensures
            final(self).wf(),
            final(self).kv_entries() == old(self).kv_entries(),
            final(self).shorthand_view() == old(self).shorthand_view(),
            final(self).id_counter() == old(self).id_counter(),
            match r {
                Ok(_) => old(self).logs().contains_key(name@) && final(self).logs() == old(self).logs().insert(name@, old(self).logs()[name@] + values.deep_view()),
                Err(e) => e == Error::NotFound && !old(self).logs().contains_key(name@) && final(self).log_entries() == old(self).log_entries(),
            },
    {
        proof {
            lemma_assoc_contains(self.log_entries(), name@);
        }
        match self.log_position(name) {
            Some(i) => {
                proof {
                    lemma_assoc_index(self.log_entries(), i as int);
                    lemma_assoc_update(
                        self.log_entries(),
                        i as int,
                        old(self).logs()[name@] + values.deep_view(),
                    );
                }
                let ghost prev = self.log_entries();
                let ghost orig_vals = values.deep_view();
                let (n, mut vs) = self.logs.remove(i);
                let mut values = values;
                vs.append(&mut values);
                self.logs.insert(i, (n, vs));
                proof {
                    assert(self.logs@[i as int].1.deep_view() =~= prev[i as int].1 + orig_vals);
                    assert(self.log_entries() =~= prev.update(
                        i as int,
                        (prev[i as int].0, prev[i as int].1 + orig_vals),
                    ));
                    assert(forall|j: int|
                        0 <= j < self.log_entries().len() ==> (#[trigger] self.log_entries()[j]).0
                            == prev[j].0);
                    Store::lemma_wf_same_kv(*old(self), *self);
                }
                Ok(())
            },
            None => Err(Error::NotFound),
        }
    }

    /// Issues a fresh page id.
    pub fn fresh_id(&mut self) -> (r: String)
        requires
            old(self).wf(),
        ensures
            final(self).wf(),
            final(self).kv_entries() == old(self).kv_entries(),
            final(self).log_entries() == old(self).log_entries(),
            final(self).shorthand_view() == old(self).shorthand_view(),
            r@ == seq!['p'] + spec_decimal(old(self).id_counter() as nat),
            old(self).id_counter() < u64::MAX ==> final(self).id_counter() == old(
                self,
            ).id_counter() + 1,
            old(self).id_counter() == u64::MAX ==> final(self).id_counter() == old(
                self,
            ).id_counter(),
    {
        let mut s = String::new();
        s.push('p');
        let d = crate::text::decimal(self.counter);
        s.append(d.as_str());
        if self.counter < u64::MAX {
            self.counter = self.counter + 1;
        }
        proof {
            Store::lemma_wf_same_kv(*old(self), *self);
        }
        s
    }

    /// The current shorthand index.
    pub fn shorthand(&self) -> (r: &Shorthand)
        requires
            self.wf(),
        ensures
            r@ == self.shorthand_view(),
            r.wf(),
    {
        &self.table
    }

    /// Replaces the shorthand index wholesale.
    pub fn write_shorthand(&mut self, t: Shorthand)
        requires
            old(self).wf(),
            t.wf(),
        ensures
            final(self).wf(),
            final(self).kv_entries() == old(self).kv_entries(),
            final(self).log_entries() == old(self).log_entries(),
            final(self).id_counter() == old(self).id_counter(),
            final(self).shorthand_view() == t@,
    {
        self.table = t;
        proof {
            Store::lemma_wf_same_kv(*old(self), *self);
        }
    }
}

} // verus!
