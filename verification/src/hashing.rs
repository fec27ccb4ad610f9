//! SHA-256 digests rendered as lowercase hexadecimal.
use vstd::prelude::*;
use vstd::utf8::encode_utf8;
use sha2::Digest;
use crate::graph::str_pairs;

verus! {

/// The SHA-256 digest of a byte string.
pub uninterp spec fn sha256_of(data: Seq<u8>) -> Seq<u8>;

/// `sha2::Sha256::digest`: the digest of `data`, which is 32 bytes long
/// (the output size of SHA-256).  The digest itself is only named.
#[verifier::external_body]
fn sha256_digest(data: &[u8]) -> (r: Vec<u8>)
    ensures
        r@ == sha256_of(data@),
        r@.len() == 32,
{
    sha2::Sha256::digest(data).to_vec()
}

/// The lowercase hexadecimal digit of `n < 16`.
pub open spec fn hex_char(n: int) -> char {
    if n < 10 {
        (48 + n) as char
    } else {
        (87 + n) as char
    }
}

/// Bytes as lowercase hexadecimal, two digits per byte, high digit first.
pub open spec fn hex_of(b: Seq<u8>) -> Seq<char>
    decreases b.len(),
{
    if b.len() == 0 {
        Seq::empty()
    } else {
        hex_of(b.drop_last()) + seq![hex_char(b.last() as int / 16), hex_char(b.last() as int % 16)]
    }
}

pub proof fn lemma_hex_len(b: Seq<u8>)
    ensures
        hex_of(b).len() == 2 * b.len(),
    decreases b.len(),
{
    if b.len() > 0 {
        lemma_hex_len(b.drop_last());
    }
}

fn hex_digit(n: u8) -> (c: char)
    requires
        n < 16,
    ensures
        c == hex_char(n as int),
{
    if n < 10 {
        (48u8 + n) as char
    } else {
        (87u8 + n) as char
    }
}

/// Renders bytes as lowercase hexadecimal.
pub fn hex_lower(bytes: &[u8]) -> (r: String)
    ensures
        r@ == hex_of(bytes@),
        r@.len() == 2 * bytes@.len(),
{
    let mut r = String::new();
    let mut k: usize = 0;
    while k < bytes.len()
        invariant
            k <= bytes@.len(),
            r@ == hex_of(bytes@.subrange(0, k as int)),
        decreases bytes@.len() - k,
    {
        let b = bytes[k];
        crate::strutil::push_char(&mut r, hex_digit(b / 16));
        crate::strutil::push_char(&mut r, hex_digit(b % 16));
        proof {
            let t = bytes@.subrange(0, k + 1);
            assert(t.drop_last() =~= bytes@.subrange(0, k as int));
            assert(t.last() == b);
            assert(r@ =~= hex_of(t));
        }
        k = k + 1;
    }
    proof {
        assert(bytes@.subrange(0, bytes@.len() as int) =~= bytes@);
        lemma_hex_len(bytes@);
    }
    r
}

/// The SHA-256 digest of `data` in lowercase hexadecimal (64 digits).
pub fn sha256_hex(data: &[u8]) -> (r: String)
    ensures
        r@ == hex_of(sha256_of(data@)),
        r@.len() == 64,
{
    let d = sha256_digest(data);
    hex_lower(d.as_slice())
}

/// Appends bytes to a buffer.
fn append_bytes(v: &mut Vec<u8>, b: &[u8])
    ensures
        final(v)@ == old(v)@ + b@,
{
    let mut k: usize = 0;
    while k < b.len()
        invariant
            k <= b@.len(),
            v@ == old(v)@ + b@.subrange(0, k as int),
        decreases b@.len() - k,
    {
        v.push(b[k]);
        proof {
            assert(old(v)@ + b@.subrange(0, k + 1) =~= (old(v)@ + b@.subrange(0, k as int)).push(b@[k as int]));
        }
        k = k + 1;
    }
    proof {
        assert(b@.subrange(0, b@.len() as int) =~= b@);
    }
}

/// The little-endian bytes of a `u32`.
pub open spec fn le_bytes(n: u32) -> Seq<u8> {
    seq![(n % 256) as u8, ((n / 256) % 256) as u8, ((n / 65536) % 256) as u8, (n / 16777216) as u8]
}

/// The UTF-8 bytes of each name followed by those of its content, in order.
pub open spec fn files_bytes(files: Seq<(Seq<char>, Seq<char>)>) -> Seq<u8>
    decreases files.len(),
{
    if files.len() == 0 {
        Seq::empty()
    } else {
        files_bytes(files.drop_last()) + encode_utf8(files.last().0) + encode_utf8(files.last().1)
    }
}

/// What the aspect version hash digests: the Bazel major version as
/// little-endian bytes, then every file's name and content.
pub open spec fn version_input(major: u32, files: Seq<(Seq<char>, Seq<char>)>) -> Seq<u8> {
    le_bytes(major) + files_bytes(files)
}

/// The version hash of a set of aspect files for a Bazel major version:
/// a change of either the files or the version changes the input digested.
pub fn version_hash(bazel_major: u32, files: &[(String, String)]) -> (r: String)
    ensures
        r@ == hex_of(sha256_of(version_input(bazel_major, str_pairs(files@)))),
        r@.len() == 64,
{
    let mut data: Vec<u8> = Vec::new();
    data.push((bazel_major % 256) as u8);
    data.push(((bazel_major / 256) % 256) as u8);
    data.push(((bazel_major / 65536) % 256) as u8);
    data.push((bazel_major / 16777216) as u8);
    proof {
        assert(data@ =~= le_bytes(bazel_major) + files_bytes(str_pairs(files@).subrange(0, 0)));
    }
    let mut k: usize = 0;
    while k < files.len()
        invariant
            k <= files@.len(),
            data@ == le_bytes(bazel_major) + files_bytes(str_pairs(files@).subrange(0, k as int)),
        decreases files@.len() - k,
    {
        append_bytes(&mut data, files[k].0.as_str().as_bytes());
        append_bytes(&mut data, files[k].1.as_str().as_bytes());
        proof {
            let t = str_pairs(files@).subrange(0, k + 1);
            assert(t.drop_last() =~= str_pairs(files@).subrange(0, k as int));
            assert(t.last() == (files@[k as int].0@, files@[k as int].1@));
            assert(data@ =~= le_bytes(bazel_major) + files_bytes(t));
        }
        k = k + 1;
    }
    proof {
        assert(str_pairs(files@).subrange(0, files@.len() as int) =~= str_pairs(files@));
    }
    sha256_hex(data.as_slice())
}

} // verus!
