//! Content hashing: every stored blob's address is the lowercase hex of the
//! SHA-256 digest of its serialized form.

use vstd::prelude::*;

verus! {

/// The SHA-256 digest of a text, named but not written out: it is a pure
/// function of its input, computed by an outside routine.
pub uninterp spec fn digest_bytes_of(s: Seq<char>) -> Seq<u8>;

/// Relies on `sha2::Sha256::digest`: the 32-byte digest is a deterministic
/// function of the input bytes alone.
#[verifier::external_body]
fn sha256(s: &str) -> (r: Vec<u8>)
    ensures
        r@ == digest_bytes_of(s@),
        r@.len() == 32,
{
    <sha2::Sha256 as sha2::Digest>::digest(s.as_bytes()).to_vec()
}

/// The character for one hex digit.
pub open spec fn spec_hex_char(d: int) -> char {
    if d == 0 {
        '0'
    } else if d == 1 {
        '1'
    } else if d == 2 {
        '2'
    } else if d == 3 {
        '3'
    } else if d == 4 {
        '4'
    } else if d == 5 {
        '5'
    } else if d == 6 {
        '6'
    } else if d == 7 {
        '7'
    } else if d == 8 {
        '8'
    } else if d == 9 {
        '9'
    } else if d == 10 {
        'a'
    } else if d == 11 {
        'b'
    } else if d == 12 {
        'c'
    } else if d == 13 {
        'd'
    } else if d == 14 {
        'e'
    } else {
        'f'
    }
}

/// Lowercase hex rendering of a byte string, two digits per byte.
pub open spec fn spec_hex(bs: Seq<u8>) -> Seq<char>
    decreases bs.len(),
{
    if bs.len() == 0 {
        Seq::empty()
    } else {
        spec_hex(bs.drop_last()) + seq![
            spec_hex_char(bs.last() as int / 16),
            spec_hex_char(bs.last() as int % 16),
        ]
    }
}

/// The address of a serialized blob: hex of its SHA-256 digest.
pub open spec fn spec_address(s: Seq<char>) -> Seq<char> {
    spec_hex(digest_bytes_of(s))
}

fn hex_char(d: u8) -> (c: char)
    requires
        d < 16,
    ensures
        c == spec_hex_char(d as int),
{
    if d == 0 {
        '0'
    } else if d == 1 {
        '1'
    } else if d == 2 {
        '2'
    } else if d == 3 {
        '3'
    } else if d == 4 {
        '4'
    } else if d == 5 {
        '5'
    } else if d == 6 {
        '6'
    } else if d == 7 {
        '7'
    } else if d == 8 {
        '8'
    } else if d == 9 {
        '9'
    } else if d == 10 {
        'a'
    } else if d == 11 {
        'b'
    } else if d == 12 {
        'c'
    } else if d == 13 {
        'd'
    } else if d == 14 {
        'e'
    } else {
        'f'
    }
}

fn to_hex(bs: &Vec<u8>) -> (s: String)
    ensures
        s@ == spec_hex(bs@),
{
    let mut s = String::new();
    let n = bs.len();
    for i in 0..n
        invariant
            n == bs@.len(),
            s@ == spec_hex(bs@.subrange(0, i as int)),
    {
        let b = bs[i];
        s.push(hex_char(b / 16));
        s.push(hex_char(b % 16));
        proof {
            assert(bs@.subrange(0, i + 1).drop_last() =~= bs@.subrange(0, i as int));
            assert(bs@.subrange(0, i + 1).last() == bs@[i as int]);
        }
    }
    proof {
        assert(bs@.subrange(0, bs@.len() as int) =~= bs@);
    }
    s
}

/// The content address of a serialized blob.
pub fn address_of(s: &String) -> (r: String)
    ensures
        r@ == spec_address(s@),
{
    let digest = sha256(s.as_str());
    to_hex(&digest)
}

} // verus!
