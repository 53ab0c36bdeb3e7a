//! Core engine of a clipboard-history manager: an authenticated-encryption
//! codec for clipboard captures, a bounded, deduplicated, persisted history
//! store, a change tracker that decides when the clipboard really changed,
//! a broadcast hub that fans new captures out to subscribers, and the
//! query boundary that external clients talk to.

use vstd::prelude::*;

pub mod config;
pub mod entry;
pub mod hub;
pub mod jsonfmt;
pub mod query;
pub mod store;
pub mod tracker;

verus! {

/// The symmetric secret every entry is sealed under: exactly 32 bytes.
pub type Key = [u8; 32];

/// Copies a byte vector element by element, so that the copy provably
/// holds the same bytes.
pub(crate) fn clone_bytes(v: &Vec<u8>) -> (r: Vec<u8>)
    ensures
        r@ == v@,
{
    let mut r: Vec<u8> = Vec::new();
    let mut i: usize = 0;
    while i < v.len()
        invariant
            i <= v.len(),
            r@ == v@.subrange(0, i as int),
        decreases v.len() - i,
    {
        r.push(v[i]);
        i = i + 1;
    }
    assert(r@ == v@);
    r
}

} // verus!
