//! The content-hash primitive.  Piece hashes are SHA-1 digests; the digest
//! itself is computed by the sha1 crate and is only named here, never
//! restated.  Everything the rest of the library claims about hashes goes
//! through `sha1_of`.

use vstd::prelude::*;

verus! {

/// The SHA-1 digest of a byte sequence.  The digest is a function of the
/// input bytes alone; its 20-byte value is computed by the sha1 crate and
/// is not restated here.
pub uninterp spec fn sha1_of(data: Seq<u8>) -> Seq<u8>;

/// Relies on `sha1::Sha1` through `digest::Digest::digest`: the one-shot
/// 20-byte SHA-1 digest of the input, a function of the input bytes alone.
#[verifier::external_body]
pub fn sha1_digest(data: &[u8]) -> (r: Vec<u8>)
    ensures
        r@ == sha1_of(data@),
        r@.len() == 20,
{
    <sha1::Sha1 as sha1::Digest>::digest(data).to_vec()
}

/// Byte-for-byte equality of two slices.
pub fn bytes_eq(a: &[u8], b: &[u8]) -> (r: bool)
    ensures
        r == (a@ == b@),
{
    if a.len() != b.len() {
        return false;
    }
    let n = a.len();
    let mut i: usize = 0;
    while i < n
        invariant
            n == a@.len() == b@.len(),
            i <= n,
            forall|j: int| 0 <= j < i ==> a@[j] == b@[j],
        decreases n - i,
    {
        if a[i] != b[i] {
            return false;
        }
        i = i + 1;
    }
    proof {
        assert(a@ =~= b@);
    }
    true
}

/// Whether the `len`-byte slice of `buffer` starting at `pos` hashes to
/// `expected`.
pub fn slice_matches(buffer: &Vec<u8>, pos: usize, len: usize, expected: &Vec<u8>) -> (r: bool)
    requires
        pos + len <= buffer@.len(),
    ensures
        r == (sha1_of(buffer@.subrange(pos as int, pos as int + len as int)) == expected@),
{
    let n = buffer.len();
    assert(pos + len <= n);
    let piece = &buffer.as_slice()[pos..pos + len];
    let digest = sha1_digest(piece);
    bytes_eq(digest.as_slice(), expected.as_slice())
}

} // verus!
