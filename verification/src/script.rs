use vstd::prelude::*;

use crate::strings::append_str;

verus! {

/// The directory where compiled scripts are kept.
pub const WO_PATH: &'static str = "/tmp/wash/";

/// What `sodiumoxide::crypto::hash::sha256::hash` gives for a message.
pub uninterp spec fn sha256_digest(data: Seq<u8>) -> Seq<u8>;

/// The SHA-256 digest of `data`, with `sodiumoxide::crypto::hash::sha256::hash`.
/// The contract claims that the digest is a function of the data alone and
/// is `DIGESTBYTES` (32) bytes long.
#[verifier::external_body]
fn sha256_bytes(data: &[u8]) -> (res: Vec<u8>)
    ensures
        res@ == sha256_digest(data@),
        res@.len() == 32,
{
    sodiumoxide::crypto::hash::sha256::hash(data).0.to_vec()
}

/// The lower-case hexadecimal digit of `d`.
pub open spec fn hex_char(d: int) -> char {
    if d == 0 {
        '0'
    } else if d == 1 {
        '1'
    } else if d == 2 {
        '2'
    } else if d == 3 {
        '3'
    } else if d == 4 {
        '4'
    } else if d == 5 {
        '5'
    } else if d == 6 {
        '6'
    } else if d == 7 {
        '7'
    } else if d == 8 {
        '8'
    } else if d == 9 {
        '9'
    } else if d == 10 {
        'a'
    } else if d == 11 {
        'b'
    } else if d == 12 {
        'c'
    } else if d == 13 {
        'd'
    } else if d == 14 {
        'e'
    } else {
        'f'
    }
}

/// Each byte as two lower-case hexadecimal digits, high digit first.
pub open spec fn hex(bytes: Seq<u8>) -> Seq<char>
    decreases bytes.len(),
{
    if bytes.len() == 0 {
        seq![]
    } else {
        hex(bytes.drop_last()) + seq![hex_char((bytes.last() / 16) as int), hex_char((bytes.last() % 16) as int)]
    }
}

fn hex_digit(d: u8) -> (c: char)
    requires
        d < 16,
    ensures
        c == hex_char(d as int),
{
    if d == 0 {
        '0'
    } else if d == 1 {
        '1'
    } else if d == 2 {
        '2'
    } else if d == 3 {
        '3'
    } else if d == 4 {
        '4'
    } else if d == 5 {
        '5'
    } else if d == 6 {
        '6'
    } else if d == 7 {
        '7'
    } else if d == 8 {
        '8'
    } else if d == 9 {
        '9'
    } else if d == 10 {
        'a'
    } else if d == 11 {
        'b'
    } else if d == 12 {
        'c'
    } else if d == 13 {
        'd'
    } else if d == 14 {
        'e'
    } else {
        'f'
    }
}

/// The bytes written in lower-case hexadecimal.
pub fn to_hex(bytes: &[u8]) -> (res: String)
    ensures
        res@ == hex(bytes@),
{
    let mut out = String::new();
    let mut i: usize = 0;
    while i < bytes.len()
        invariant
            i <= bytes@.len(),
            out@ == hex(bytes@.subrange(0, i as int)),
        decreases bytes@.len() - i,
    {
        let b = bytes[i];
        out.push(hex_digit(b / 16));
        out.push(hex_digit(b % 16));
        proof {
            let s = bytes@.subrange(0, i + 1);
            assert(s.drop_last() =~= bytes@.subrange(0, i as int));
            assert(s.last() == b);
            assert(out@ =~= hex(s));
        }
        i = i + 1;
    }
    proof {
        assert(bytes@.subrange(0, bytes@.len() as int) =~= bytes@);
    }
    out
}

/// The name under which a script is kept once compiled: the SHA-256
/// digest of its text in hexadecimal.
pub fn script_hash(contents: &[u8]) -> (res: String)
    ensures
        res@ == hex(sha256_digest(contents@)),
        res@.len() == 64,
{
    let digest = sha256_bytes(contents);
    let out = to_hex(digest.as_slice());
    proof {
        lemma_hex_len(digest@);
    }
    out
}

/// Each byte gives two digits.
pub proof fn lemma_hex_len(bytes: Seq<u8>)
    ensures
        hex(bytes).len() == 2 * bytes.len(),
    decreases bytes.len(),
{
    if bytes.len() > 0 {
        lemma_hex_len(bytes.drop_last());
    }
}

/// Where the compiled form of a script with the given text is kept.
pub fn script_object_path(contents: &[u8]) -> (res: String)
    ensures
        res@ == WO_PATH@ + hex(sha256_digest(contents@)) + ".wo"@,
{
    let mut out = WO_PATH.to_owned();
    let h = script_hash(contents);
    append_str(&mut out, h.as_str());
    append_str(&mut out, ".wo");
    out
}

} // verus!
