//! The hash that node digests are built from, and digests as text.
use crate::text::{decimal, push_decimal};
use vstd::prelude::*;
use vstd::string::*;

verus! {

/// The 64-bit hash of a text under std's `DefaultHasher` (built with its
/// fixed keys, so it depends on the characters alone).
pub uninterp spec fn text_hash(s: Seq<char>) -> u64;

/// Relies on `BuildHasher::hash_one` over `BuildHasherDefault<DefaultHasher>`:
/// the text is fed to a fresh `DefaultHasher` as `str` hashes itself, and
/// the hasher's `finish` value is returned.
#[verifier::external_body]
fn hash_text(s: &str) -> (r: u64)
    ensures
        r == text_hash(s@),
{
    let builder = std::hash::BuildHasherDefault::<std::collections::hash_map::DefaultHasher>::default();
    std::hash::BuildHasher::hash_one(&builder, s)
}

/// A digest as text: the decimal numeral of the hash of `s`.
pub open spec fn hashed(s: Seq<char>) -> Seq<char> {
    decimal(text_hash(s) as nat)
}

/// The digest of a hash value that has already been computed.
pub fn digest_of_hash(h: u64) -> (r: String)
    ensures
        r@ == decimal(h as nat),
{
    let mut out = String::new();
    push_decimal(h, &mut out);
    assert(out@ =~= decimal(h as nat));
    out
}

/// The digest of a text.
pub fn digest_text(s: &str) -> (r: String)
    ensures
        r@ == hashed(s@),
{
    digest_of_hash(hash_text(s))
}

/// The digest of the empty text, which stands for an absent child.
pub fn digest_empty() -> (r: String)
    ensures
        r@ == hashed(Seq::empty()),
{
    let empty = String::new();
    digest_text(empty.as_str())
}

/// The digest of the concatenation of three digests.
pub fn digest_joined(own: String, left: &str, right: &str) -> (r: String)
    ensures
        r@ == hashed(own@ + left@ + right@),
{
    let joined = own.concat(left).concat(right);
    digest_text(joined.as_str())
}

} // verus!
