//! Content fingerprinting: a file's content is identified by its size and
//! the digest of a bounded prefix of its bytes. Hashing only the first
//! megabyte is a deliberate trade-off: large files are distinguished cheaply
//! at the cost of accepted collision risk when two files share their first
//! megabyte.

use vstd::prelude::*;

use crate::records::ContentDescription;
use crate::text::{hex_char, hex_str, is_hex_lower};

verus! {

/// The number of leading bytes the content digest covers.
pub const HASH_PREFIX_SIZE: usize = 1048576;

/// The MD5 digest (16 bytes) of a byte sequence. The digest is named, not
/// defined: it is a function of the input bytes alone, computed by an
/// outside crate.
pub uninterp spec fn spec_md5(bytes: Seq<u8>) -> Seq<u8>;

/// Relies on md5::compute: the digest is a pure function of the input bytes,
/// and `Digest` holds exactly 16 of them.
#[verifier::external_body]
fn md5_digest(data: &[u8]) -> (r: Vec<u8>)
    ensures
        r@ == spec_md5(data@),
        r@.len() == 16,
{
    md5::compute(data).0.to_vec()
}

/// The lower-case hex encoding of a byte sequence: two digits per byte,
/// high nibble first.
pub open spec fn spec_hex_lower(bytes: Seq<u8>) -> Seq<char>
    decreases bytes.len(),
{
    if bytes.len() == 0 {
        Seq::empty()
    } else {
        spec_hex_lower(bytes.drop_last()) + seq![
            hex_char(bytes.last() as int / 16),
            hex_char(bytes.last() as int % 16),
        ]
    }
}

/// A hex encoding has two characters per byte, all lower-case hex digits.
pub proof fn lemma_hex_lower_shape(bytes: Seq<u8>)
    ensures
        spec_hex_lower(bytes).len() == 2 * bytes.len(),
        forall|i: int|
            0 <= i < spec_hex_lower(bytes).len() ==> is_hex_lower(#[trigger] spec_hex_lower(
                bytes,
            )[i]),
    decreases bytes.len(),
{
    if bytes.len() > 0 {
        lemma_hex_lower_shape(bytes.drop_last());
        let s = spec_hex_lower(bytes.drop_last());
        let t = spec_hex_lower(bytes);
        assert(forall|i: int| 0 <= i < s.len() ==> t[i] == s[i]);
        assert(is_hex_lower(t[t.len() - 2]));
        assert(is_hex_lower(t[t.len() - 1]));
    }
}

/// Encodes bytes as lower-case hex text.
pub fn hex_lower(bytes: &Vec<u8>) -> (r: String)
    ensures
        r@ == spec_hex_lower(bytes@),
{
    let mut r = String::new();
    let n = bytes.len();
    let mut i: usize = 0;
    proof {
        assert(bytes@.take(0) =~= Seq::<u8>::empty());
    }
    while i < n
        invariant
            0 <= i <= n,
            n == bytes@.len(),
            r@ == spec_hex_lower(bytes@.take(i as int)),
        decreases n - i,
    {
        let b = bytes[i];
        r.append(hex_str(b / 16));
        r.append(hex_str(b % 16));
        proof {
            let p = bytes@.take(i as int + 1);
            assert(p.drop_last() =~= bytes@.take(i as int));
            assert(p.last() == bytes@[i as int]);
        }
        i = i + 1;
    }
    proof {
        assert(bytes@.take(n as int) =~= bytes@);
    }
    r
}

/// The number of leading bytes of an `n`-byte content that the digest
/// covers.
pub open spec fn spec_prefix_len(n: int) -> int {
    if n < HASH_PREFIX_SIZE as int {
        n
    } else {
        HASH_PREFIX_SIZE as int
    }
}

impl ContentDescription {
    /// Fingerprints content: the size as given, the digest over only the
    /// first [`HASH_PREFIX_SIZE`] bytes of `data` (all of it when shorter).
    /// `data` are the leading bytes of the content; `size` is the full
    /// content's byte count, which may exceed what was read.
    pub fn of_content(size: u64, data: &[u8]) -> (r: ContentDescription)
        ensures
            r@.size == size,
            r@.hash == spec_hex_lower(spec_md5(data@.take(spec_prefix_len(data@.len() as int)))),
            r@.hash.len() == 32,
            forall|i: int| 0 <= i < r@.hash.len() ==> is_hex_lower(#[trigger] r@.hash[i]),
    {
        let n = if data.len() < HASH_PREFIX_SIZE {
            data.len()
        } else {
            HASH_PREFIX_SIZE
        };
        let prefix = vstd::slice::slice_subrange(data, 0, n);
        proof {
            assert(data@.subrange(0, n as int) =~= data@.take(spec_prefix_len(
                data@.len() as int,
            )));
        }
        let digest = md5_digest(prefix);
        let hash = hex_lower(&digest);
        proof {
            lemma_hex_lower_shape(digest@);
        }
        ContentDescription { size, hash }
    }
}

} // verus!
