//! Channel names are interned as 64-bit hashes.
use std::collections::hash_map::DefaultHasher;
use std::hash::Hasher;
use vstd::prelude::*;
use vstd::std_specs::hash::DefaultHasherAdditionalSpecFns;
use vstd::string::StringSliceAdditionalSpecFns;

verus! {

/// The id of the channel whose name has the UTF-8 encoding `name_bytes`.
///
/// A string is hashed as its bytes followed by the terminator byte `0xff`, which is how
/// `str` feeds a `Hasher`; two names with equal ids are treated as the same channel.
pub open spec fn channel_id_of(name_bytes: Seq<u8>) -> u64 {
    DefaultHasher::spec_finish(seq![name_bytes, seq![0xffu8]])
}

/// Stable 64-bit id of a channel name (std's default SipHash with fixed keys).
pub fn hashed(name: &str) -> (id: u64)
    ensures
        id == channel_id_of(name.spec_bytes()),
{
    let mut hasher = DefaultHasher::new();
    hasher.write(name.as_bytes());
    let terminator: [u8; 1] = [0xffu8];
    let tail: &[u8] = vstd::array::array_as_slice(&terminator);
    assert(tail@ =~= seq![0xffu8]);
    hasher.write(tail);
    assert(hasher@ =~= seq![name.spec_bytes(), seq![0xffu8]]);
    hasher.finish()
}

} // verus!
