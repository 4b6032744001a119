//! Content hashing: deterministic 256-bit identifiers for paths and for file
//! content, computed with SHA-256.

use vstd::prelude::*;
use vstd::utf8::encode_utf8;

verus! {

/// The SHA-256 digest of a byte string.  The digest is a function of the
/// input bytes alone; nothing further is assumed about its value.
pub uninterp spec fn sha256_of(bytes: Seq<u8>) -> Seq<u8>;

/// Relies on `sha2::Sha256` through the one-shot `Digest::digest` API: the
/// 32-byte digest is a deterministic function of the input bytes alone.
#[verifier::external_body]
pub(crate) fn sha256(bytes: &[u8]) -> (r: [u8; 32])
    ensures
        r@ == sha256_of(bytes@),
{
    <sha2::Sha256 as sha2::Digest>::digest(bytes).into()
}

/// The character sequences of a list of path components.
pub open spec fn components_view(p: Seq<String>) -> Seq<Seq<char>> {
    Seq::new(p.len(), |i: int| p[i]@)
}

/// The UTF-8 bytes of the first `n` path components, concatenated in order
/// with no separator.
pub open spec fn path_bytes_prefix(path: Seq<Seq<char>>, n: int) -> Seq<u8>
    decreases n,
{
    if n <= 0 {
        Seq::empty()
    } else {
        path_bytes_prefix(path, n - 1) + encode_utf8(path[n - 1])
    }
}

/// The UTF-8 bytes of all path components, concatenated in order with no
/// separator.  These are the bytes that the path hash and the identity hash
/// fold in.
pub open spec fn path_bytes(path: Seq<Seq<char>>) -> Seq<u8> {
    path_bytes_prefix(path, path.len() as int)
}

/// The index key for a relative path: SHA-256 over the concatenation of the
/// components' raw bytes, in order.  No normalization is applied, so paths
/// that differ in case or separators hash differently.
pub fn hash_path(path: &Vec<String>) -> (r: [u8; 32])
    ensures
        r@ == sha256_of(path_bytes(components_view(path@))),
{
    let ghost cv = components_view(path@);
    let mut buf: Vec<u8> = Vec::new();
    let mut i: usize = 0;
    while i < path.len()
        invariant
            0 <= i <= path@.len(),
            cv == components_view(path@),
            buf@ == path_bytes_prefix(cv, i as int),
        decreases path@.len() - i,
    {
        let comp: &String = &path[i];
        buf.extend_from_slice(comp.as_str().as_bytes());
        i += 1;
    }
    sha256(buf.as_slice())
}

/// The identity hash of a tracked file: SHA-256 over the file's content
/// followed by the raw bytes of its own relative path.  Two files with the
/// same content but different paths therefore receive different inputs here,
/// and renaming a file alone changes the digest input.
pub open spec fn spec_identity_hash(content: Seq<u8>, path: Seq<Seq<char>>) -> Seq<u8> {
    sha256_of(content + path_bytes(path))
}

/// Identity-hash sensitivity, at the digest's input: two files that differ
/// only in their relative-path bytes, or only in their content, feed the
/// digest two different byte strings.  What SHA-256 makes of two different
/// inputs is no statement of this crate: the digest itself is opaque here.
pub proof fn lemma_identity_input_sensitivity(
    c1: Seq<u8>,
    p1: Seq<Seq<char>>,
    c2: Seq<u8>,
    p2: Seq<Seq<char>>,
)
    requires
        (c1 == c2 && path_bytes(p1) != path_bytes(p2)) || (c1 != c2 && path_bytes(p1)
            == path_bytes(p2)),
    ensures
        c1 + path_bytes(p1) != c2 + path_bytes(p2),
{
    let b1 = path_bytes(p1);
    let b2 = path_bytes(p2);
    if c1 + b1 == c2 + b2 {
        if c1 == c2 {
            assert(b1 =~= (c1 + b1).subrange(c1.len() as int, (c1 + b1).len() as int));
            assert(b2 =~= (c2 + b2).subrange(c2.len() as int, (c2 + b2).len() as int));
        } else {
            assert((c1 + b1).len() == c1.len() + b1.len());
            assert((c2 + b2).len() == c2.len() + b2.len());
            assert(c1.len() == c2.len());
            assert(c1 =~= (c1 + b1).subrange(0, c1.len() as int));
            assert(c2 =~= (c2 + b2).subrange(0, c2.len() as int));
        }
    }
}

/// Computes the identity hash of a file from its content bytes and its
/// relative path.
pub fn identity_hash(content: &Vec<u8>, path: &Vec<String>) -> (r: [u8; 32])
    ensures
        r@ == spec_identity_hash(content@, components_view(path@)),
{
    let ghost cv = components_view(path@);
    let mut buf: Vec<u8> = Vec::new();
    buf.extend_from_slice(content.as_slice());
    let mut i: usize = 0;
    while i < path.len()
        invariant
            0 <= i <= path@.len(),
            cv == components_view(path@),
            buf@ == content@ + path_bytes_prefix(cv, i as int),
        decreases path@.len() - i,
    {
        let comp: &String = &path[i];
        buf.extend_from_slice(comp.as_str().as_bytes());
        proof {
            assert(buf@ =~= content@ + path_bytes_prefix(cv, i as int + 1));
        }
        i += 1;
    }
    sha256(buf.as_slice())
}

} // verus!
