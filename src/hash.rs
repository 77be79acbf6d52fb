//! The content hasher: a BLAKE3 digest over a kind byte and the content.
use vstd::prelude::*;

use crate::db::ClipKind;

verus! {

/// The lowercase hex BLAKE3 digest of the byte `tag` followed by the UTF-8
/// bytes of `content`.
pub uninterp spec fn blake3_hex_of(tag: u8, content: Seq<char>) -> Seq<char>;

/// A digit of lowercase hexadecimal.
pub open spec fn is_lower_hex(c: char) -> bool {
    ('0' <= c && c <= '9') || ('a' <= c && c <= 'f')
}

/// The fingerprint of a clip: its kind's tag byte mixed in before its content.
pub open spec fn content_hash_of(kind: ClipKind, content: Seq<char>) -> Seq<char> {
    blake3_hex_of(kind.tag_spec(), content)
}

/// Relies on blake3's `Hasher` (`update` with the tag byte, then with the
/// content's bytes, `finalize`) and on `Hash::to_hex`, which writes the 32-byte
/// digest as 64 lowercase hex digits.
#[verifier::external_body]
fn blake3_tagged_hex(tag: u8, content: &str) -> (r: String)
    ensures
        r@ == blake3_hex_of(tag, content@),
        r@.len() == 64,
        forall|i: int| 0 <= i < 64 ==> is_lower_hex(#[trigger] r@[i]),
{
    let mut hasher = blake3::Hasher::new();
    hasher.update(&[tag]);
    hasher.update(content.as_bytes());
    hasher.finalize().to_hex().to_string()
}

/// The content hash of a clip of kind `kind` holding `content`.
pub fn compute_content_hash(kind: ClipKind, content: &str) -> (r: String)
    ensures
        r@ == content_hash_of(kind, content@),
        r@.len() == 64,
        forall|i: int| 0 <= i < 64 ==> is_lower_hex(#[trigger] r@[i]),
{
    blake3_tagged_hex(kind.tag(), content)
}

/// Two clips with the same kind and the same content have the same hash: the
/// hash is a function of (kind, content) alone.
pub proof fn lemma_hash_deterministic(k1: ClipKind, c1: Seq<char>, k2: ClipKind, c2: Seq<char>)
    requires
        k1 == k2,
        c1 == c2,
    ensures
        content_hash_of(k1, c1) == content_hash_of(k2, c2),
{
}

} // verus!
