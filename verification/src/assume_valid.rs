//! Optional assume-valid pin for initial block download: a pinned block (and
//! the strict ancestors of an imported pin) may skip the expensive STARK
//! re-verification. The pin text is read by the caller (from the
//! environment); this module decides what it means.

use vstd::prelude::*;
use vstd::string::StringSliceAdditionalSpecFns;
use crate::bytes::{hex_decode, hex_decode_spec};

verus! {

/// The compile-time release pin (empty: no pin ships with this release).
pub const RELEASE_ASSUME_VALID: &'static str = "";

/// The pin named by operator text: `None` when the text is empty or is not
/// exactly 64 bytes of hex (then the empty release pin applies: none).
pub open spec fn spec_pin_from_text(raw: Seq<u8>) -> Option<Seq<u8>> {
    if raw.len() == 0 {
        None
    } else {
        match hex_decode_spec(raw) {
            Some(b) => if b.len() == 64 { Some(b) } else { None },
            None => None,
        }
    }
}

/// Parse an already trimmed operator pin.
pub fn pinned_digest_from_text(raw: &str) -> (r: Option<crate::hash::Hash>)
    ensures
        match r {
            Some(h) => spec_pin_from_text(raw.spec_bytes()) == Some(h@),
            None => spec_pin_from_text(raw.spec_bytes()) is None,
        },
{
    let b = raw.as_bytes();
    if b.len() == 0 {
        return None;
    }
    match hex_decode(b) {
        Some(d) => {
            if d.len() == 64 {
                Some(crate::hash::hash_from_vec(&d))
            } else {
                None
            }
        },
        None => None,
    }
}

/// True when `h` matches the configured pin (if any).
pub fn is_pinned(pin: &Option<crate::hash::Hash>, h: &crate::hash::Hash) -> (r: bool)
    ensures
        r == (pin matches Some(p) && p@ == h@),
{
    match pin {
        Some(p) => p.equals(h),
        None => false,
    }
}

/// Whether the STARK verification of `block_hash` may be skipped: only with
/// a pin, and only for the pin itself or when the caller reports that the
/// block is a strict ancestor of the imported pin.
pub fn may_skip_stark_verify<F: FnOnce(&crate::hash::Hash) -> bool>(
    pin: &Option<crate::hash::Hash>,
    block_hash: &crate::hash::Hash,
    pin_is_ancestor: F,
) -> (r: bool)
    requires
        pin matches Some(p) ==> pin_is_ancestor.requires((&p,)),
    ensures
        pin is None ==> !r,
        pin matches Some(p) ==> (p@ == block_hash@ ==> r),
        pin matches Some(p) ==> (p@ != block_hash@ ==> pin_is_ancestor.ensures((&p,), r)),
{
    match pin {
        Some(p) => {
            if p.equals(block_hash) {
                true
            } else {
                pin_is_ancestor(p)
            }
        },
        None => false,
    }
}

} // verus!
