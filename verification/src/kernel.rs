//! Consensus kernel helpers shared by every caller of the rules.

use vstd::prelude::*;
use crate::bytes::{le64, push_le64};
use crate::crypto::{blake3_xof, blake3_xof_bytes};

verus! {

/// The byte tag `hassan-kernel-rules-v22`.
pub open spec fn spec_kernel_rules_tag() -> Seq<u8> {
    seq![104u8, 97u8, 115u8, 115u8, 97u8, 110u8, 45u8, 107u8, 101u8, 114u8, 110u8, 101u8, 108u8, 45u8, 114u8, 117u8, 108u8, 101u8, 115u8, 45u8, 118u8, 50u8, 50u8]
}

/// The byte tag `hassan-kernel-rules-v22`.
pub fn kernel_rules_tag() -> (r: Vec<u8>)
    ensures
        r@ == spec_kernel_rules_tag(),
{
    vec![104u8, 97u8, 115u8, 115u8, 97u8, 110u8, 45u8, 107u8, 101u8, 114u8, 110u8, 101u8, 108u8, 45u8, 114u8, 117u8, 108u8, 101u8, 115u8, 45u8, 118u8, 50u8, 50u8]
}

/// Domain-separated digest identifying this version of the kernel rules:
/// Blake3 XOF over the rules tag and the digest size (64, little-endian).
pub fn kernel_rules_id() -> (r: crate::hash::Hash)
    ensures
        r@ == blake3_xof(spec_kernel_rules_tag() + le64(64), 64),
{
    let mut buf = kernel_rules_tag();
    push_le64(&mut buf, 64);
    let v = blake3_xof_bytes(buf.as_slice(), 64);
    crate::hash::hash_from_vec(&v)
}

} // verus!
