//! Tree nodes: a page has a title, a content address, a child table and open
//! metadata fields, plus a stable identity that survives edits.

use vstd::prelude::*;

use crate::dict::Dict;
use crate::text::{decimal, spec_decimal};

verus! {

/// The mathematical reading of a page.
#[verifier::ext_equal]
pub struct PageView {
    pub id: Seq<char>,
    pub title: Seq<char>,
    pub content: Seq<char>,
    pub children: Seq<(Seq<char>, Seq<char>)>,
    pub fields: Seq<(Seq<char>, Seq<char>)>,
}

/// A tree node. `content` and the child-table values are store addresses.
pub struct Page {
    pub id: String,
    pub title: String,
    pub content: String,
    pub children: Dict,
    pub fields: Dict,
}

impl View for Page {
    type V = PageView;

    open spec fn view(&self) -> PageView {
        PageView {
            id: self.id@,
            title: self.title@,
            content: self.content@,
            children: self.children@,
            fields: self.fields@,
        }
    }
}

/// Characters that survive into a permalink-safe short name.
pub open spec fn keep_char(c: char) -> bool {
    ('a' <= c && c <= 'z') || ('A' <= c && c <= 'Z') || ('0' <= c && c <= '9') || c == '-' || c
        == ' '
}

/// Spaces become dashes; everything else kept is passed through.
pub open spec fn norm_char(c: char) -> char {
    if c == ' ' {
        '-'
    } else {
        c
    }
}

/// The permalink-safe short form of a title.
pub open spec fn spec_short(s: Seq<char>) -> Seq<char>
    decreases s.len(),
{
    if s.len() == 0 {
        Seq::empty()
    } else if keep_char(s.last()) {
        spec_short(s.drop_last()).push(norm_char(s.last()))
    } else {
        spec_short(s.drop_last())
    }
}

/// A length-prefixed block: the only serialization primitive of the store.
pub open spec fn spec_block(s: Seq<char>) -> Seq<char> {
    spec_decimal(s.len() as nat) + seq![':'] + s
}

/// Length-prefixed key/value blocks, in table order.
pub open spec fn spec_pair_blocks(ps: Seq<(Seq<char>, Seq<char>)>) -> Seq<char>
    decreases ps.len(),
{
    if ps.len() == 0 {
        Seq::empty()
    } else {
        spec_pair_blocks(ps.drop_last()) + spec_block(ps.last().0) + spec_block(ps.last().1)
    }
}

/// The serialized form of a page.
pub open spec fn spec_encode_page(p: PageView) -> Seq<char> {
    seq!['N'] + spec_block(p.id) + spec_block(p.title) + spec_block(p.content) + spec_decimal(
        p.children.len() as nat,
    ) + seq![';'] + spec_pair_blocks(p.children) + spec_decimal(p.fields.len() as nat) + seq![';']
        + spec_pair_blocks(p.fields)
}

/// Appends one length-prefixed block.
fn push_block(out: &mut String, s: &String)
    ensures
        final(out)@ == old(out)@ + spec_block(s@),
{
    let n = s.as_str().unicode_len();
    let d = decimal(n as u64);
    out.append(d.as_str());
    out.push(':');
    out.append(s.as_str());
}

/// Appends every pair of a dictionary as two blocks.
fn push_pair_blocks(out: &mut String, d: &Dict)
    ensures
        final(out)@ == old(out)@ + spec_pair_blocks(d@),
{
    let n = d.len();
    for i in 0..n
        invariant
            n == d@.len(),
            out@ == old(out)@ + spec_pair_blocks(d@.subrange(0, i as int)),
    {
        push_block(out, d.key_at(i));
        push_block(out, d.value_at(i));
        proof {
            assert(d@.subrange(0, i + 1).drop_last() =~= d@.subrange(0, i as int));
            assert(d@.subrange(0, i + 1).last() == d@[i as int]);
        }
    }
    proof {
        assert(d@.subrange(0, d@.len() as int) =~= d@);
    }
}

impl Page {
    /// The child and field tables have unique keys.
    pub open spec fn wf(&self) -> bool {
        self.children.wf() && self.fields.wf()
    }

    /// A fresh page: no children yet.
    pub fn new(id: String, title: String, content: String, fields: Dict) -> (p: Page)
        requires
            fields.wf(),
        ensures
            p@ == (PageView {
                id: id@,
                title: title@,
                content: content@,
                children: Seq::empty(),
                fields: fields@,
            }),
            p.wf(),
    {
        let p = Page { id, title, content, children: Dict::new(), fields };
        proof {
            assert(p@.children =~= Seq::<(Seq<char>, Seq<char>)>::empty());
        }
        p
    }

    /// The page's stable identity.
    pub fn id(&self) -> (r: &String)
        ensures
            r@ == self@.id,
    {
        &self.id
    }

    /// The permalink-safe short form of the title.
    pub fn short(&self) -> (r: String)
        ensures
            r@ == spec_short(self@.title),
    {
        let mut out = String::new();
        let t = self.title.as_str();
        let n = t.unicode_len();
        for i in 0..n
            invariant
                n == t@.len(),
                t@ == self@.title,
                out@ == spec_short(t@.subrange(0, i as int)),
        {
            let c = t.get_char(i);
            let keep = ('a' <= c && c <= 'z') || ('A' <= c && c <= 'Z') || ('0' <= c && c <= '9')
                || c == '-' || c == ' ';
            if keep {
                if c == ' ' {
                    out.push('-');
                } else {
                    out.push(c);
                }
            }
            proof {
                assert(t@.subrange(0, i + 1).drop_last() =~= t@.subrange(0, i as int));
                assert(t@.subrange(0, i + 1).last() == t@[i as int]);
            }
        }
        proof {
            assert(t@.subrange(0, t@.len() as int) =~= t@);
        }
        out
    }

    /// The serialized form written to the store.
    pub fn encode(&self) -> (r: String)
        ensures
            r@ == spec_encode_page(self@),
    {
        let mut out = String::new();
        out.push('N');
        push_block(&mut out, &self.id);
        push_block(&mut out, &self.title);
        push_block(&mut out, &self.content);
        let cn = decimal(self.children.len() as u64);
        out.append(cn.as_str());
        out.push(';');
        push_pair_blocks(&mut out, &self.children);
        let fnum = decimal(self.fields.len() as u64);
        out.append(fnum.as_str());
        out.push(';');
        push_pair_blocks(&mut out, &self.fields);
        proof {
            assert(out@ =~= spec_encode_page(self@));
        }
        out
    }

    /// A copy whose view is identical.
    pub fn duplicate(&self) -> (p: Page)
        ensures
            p@ == self@,
            self.wf() ==> p.wf(),
    {
        let p = Page {
            id: self.id.clone(),
            title: self.title.clone(),
            content: self.content.clone(),
            children: self.children.duplicate(),
            fields: self.fields.duplicate(),
        };
        assert(p@ =~= self@);
        p
    }
}

} // verus!
