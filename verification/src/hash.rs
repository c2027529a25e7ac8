//! The colour key of a block: std's default SipHash of its name.

use std::collections::hash_map::DefaultHasher;
use std::hash::Hasher;
use vstd::prelude::*;
use vstd::std_specs::hash::DefaultHasherAdditionalSpecFns;
use vstd::utf8::encode_utf8;

verus! {

/// The marker byte that `Hash for str` writes after the string's bytes; it can never occur
/// inside UTF-8, which keeps the written stream prefix-free.
pub const STR_TERMINATOR: u8 = 0xff;

/// What `hash_string` returns for the text `s`: the default hasher's digest of the writes
/// that hashing a `str` makes, the UTF-8 bytes of `s` and then the terminator byte.
pub open spec fn spec_hash_string(s: Seq<char>) -> u64 {
    DefaultHasher::spec_finish(seq![encode_utf8(s), seq![STR_TERMINATOR]])
}

/// Hashes `s` with a fresh `DefaultHasher`, as `s.hash(&mut hasher); hasher.finish()` does.
pub fn hash_string(s: &str) -> (h: u64)
    ensures
        h == spec_hash_string(s@),
{
    let mut hasher = DefaultHasher::new();
    hasher.write(s.as_bytes());
    let tail: [u8; 1] = [STR_TERMINATOR];
    hasher.write(tail.as_slice());
    proof {
        assert(tail@ =~= seq![STR_TERMINATOR]);
        assert(hasher@ =~= seq![encode_utf8(s@), seq![STR_TERMINATOR]]);
    }
    hasher.finish()
}

} // verus!
