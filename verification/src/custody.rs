//! Custody movements (stake lock/unlock, bridge exit/enter), each anchored to
//! a block's birth certificate and 512-bit Settlement ID.

use vstd::prelude::*;
use vstd::string::StringExecFns;
use vstd::utf8::encode_utf8;
use crate::abs_sig::{sign_pq512, verify_pq512};
use crate::address::{spec_encode_hash, spec_matches_pubkey};
use crate::block::{spec_issuance_ok, spec_settlement_id, spec_block_hash, spec_birth_certificate_tag, BirthCertificate, Block, SettlementId};
use crate::bytes::{ascii_chars, hex_decode, hex_decode_spec, hex_encode, hex_encode_spec, le128, le64, push_all, push_le128, push_le64};
use crate::crypto::{mldsa87_accepts, mldsa87_pair, PQ_PUBLIC_KEY_SIZE, PQ_SECRET_KEY_SIZE};
use crate::dual_sig::{spec_dual_signature_ok, DualSigKeypair, DualSignature};
use crate::hash::{spec_address_hash, spec_digest512};

verus! {

/// The byte tag `hassan-custody-v1`.
pub open spec fn spec_custody_msg_tag() -> Seq<u8> {
    seq![104u8, 97u8, 115u8, 115u8, 97u8, 110u8, 45u8, 99u8, 117u8, 115u8, 116u8, 111u8, 100u8, 121u8, 45u8, 118u8, 49u8]
}

/// The byte tag `hassan-custody-v1`.
pub fn custody_msg_tag() -> (r: Vec<u8>)
    ensures
        r@ == spec_custody_msg_tag(),
{
    vec![104u8, 97u8, 115u8, 115u8, 97u8, 110u8, 45u8, 99u8, 117u8, 115u8, 116u8, 111u8, 100u8, 121u8, 45u8, 118u8, 49u8]
}

/// The byte tag `custody`.
pub open spec fn spec_custody_tag() -> Seq<u8> {
    seq![99u8, 117u8, 115u8, 116u8, 111u8, 100u8, 121u8]
}

/// The byte tag `custody`.
pub fn custody_tag() -> (r: Vec<u8>)
    ensures
        r@ == spec_custody_tag(),
{
    vec![99u8, 117u8, 115u8, 116u8, 111u8, 100u8, 121u8]
}

/// The byte tag `stake-lock`.
pub open spec fn spec_stake_lock_tag() -> Seq<u8> {
    seq![115u8, 116u8, 97u8, 107u8, 101u8, 45u8, 108u8, 111u8, 99u8, 107u8]
}

/// The byte tag `stake-lock`.
pub fn stake_lock_tag() -> (r: Vec<u8>)
    ensures
        r@ == spec_stake_lock_tag(),
{
    vec![115u8, 116u8, 97u8, 107u8, 101u8, 45u8, 108u8, 111u8, 99u8, 107u8]
}

/// The byte tag `stake-unlock`.
pub open spec fn spec_stake_unlock_tag() -> Seq<u8> {
    seq![115u8, 116u8, 97u8, 107u8, 101u8, 45u8, 117u8, 110u8, 108u8, 111u8, 99u8, 107u8]
}

/// The byte tag `stake-unlock`.
pub fn stake_unlock_tag() -> (r: Vec<u8>)
    ensures
        r@ == spec_stake_unlock_tag(),
{
    vec![115u8, 116u8, 97u8, 107u8, 101u8, 45u8, 117u8, 110u8, 108u8, 111u8, 99u8, 107u8]
}

/// The byte tag `bridge-exit`.
pub open spec fn spec_bridge_exit_tag() -> Seq<u8> {
    seq![98u8, 114u8, 105u8, 100u8, 103u8, 101u8, 45u8, 101u8, 120u8, 105u8, 116u8]
}

/// The byte tag `bridge-exit`.
pub fn bridge_exit_tag() -> (r: Vec<u8>)
    ensures
        r@ == spec_bridge_exit_tag(),
{
    vec![98u8, 114u8, 105u8, 100u8, 103u8, 101u8, 45u8, 101u8, 120u8, 105u8, 116u8]
}

/// The byte tag `bridge-enter`.
pub open spec fn spec_bridge_enter_tag() -> Seq<u8> {
    seq![98u8, 114u8, 105u8, 100u8, 103u8, 101u8, 45u8, 101u8, 110u8, 116u8, 101u8, 114u8]
}

/// The byte tag `bridge-enter`.
pub fn bridge_enter_tag() -> (r: Vec<u8>)
    ensures
        r@ == spec_bridge_enter_tag(),
{
    vec![98u8, 114u8, 105u8, 100u8, 103u8, 101u8, 45u8, 101u8, 110u8, 116u8, 101u8, 114u8]
}

/// The kind of custody movement.
#[derive(Clone, Copy, Debug, PartialEq, Eq, Structural)]
pub enum CustodyKind {
    /// Value locked for staking.
    StakeLock,
    /// Stake withdrawn back to free balance.
    StakeUnlock,
    /// Value leaving toward a foreign chain.
    BridgeExit,
    /// Value returning from a foreign chain.
    BridgeEnter,
}

/// The message tag of a custody kind.
pub open spec fn kind_tag(k: CustodyKind) -> Seq<u8> {
    match k {
        CustodyKind::StakeLock => spec_stake_lock_tag(),
        CustodyKind::StakeUnlock => spec_stake_unlock_tag(),
        CustodyKind::BridgeExit => spec_bridge_exit_tag(),
        CustodyKind::BridgeEnter => spec_bridge_enter_tag(),
    }
}

fn kind_tag_exec(k: CustodyKind) -> (r: Vec<u8>)
    ensures
        r@ == kind_tag(k),
{
    match k {
        CustodyKind::StakeLock => stake_lock_tag(),
        CustodyKind::StakeUnlock => stake_unlock_tag(),
        CustodyKind::BridgeExit => bridge_exit_tag(),
        CustodyKind::BridgeEnter => bridge_enter_tag(),
    }
}

/// A signed custody event anchored to a block.
#[derive(Clone, Debug)]
pub struct CustodyCertificate {
    pub kind: CustodyKind,
    /// Hash of the anchoring block.
    pub block_hash: crate::hash::Hash,
    /// Settlement ID of the anchoring block (hex).
    pub settlement_id: String,
    /// Birth certificate signature of the anchoring block.
    pub birth_certificate: Vec<u8>,
    pub issuer_pubkey: Vec<u8>,
    /// Destination or source chain id (0 = local stake).
    pub foreign_chain_id: u64,
    pub amount: u128,
    pub title_id: Option<crate::hash::Hash>,
    pub owner: String,
    pub nonce: u64,
    pub chain_id: u64,
    /// ML-DSA-87 signature over the prehashed custody message.
    pub signature: Vec<u8>,
    pub from_pubkey: Vec<u8>,
    /// Optional second (SLH-DSA) signature over the same message.
    pub dual_signature: Option<DualSignature>,
}

/// The bytes a custody certificate's signatures cover.
pub open spec fn spec_custody_message(c: CustodyCertificate) -> Seq<u8> {
    spec_custody_msg_tag() + c.block_hash@ + encode_utf8(c.settlement_id@) + c.birth_certificate@
        + le64(c.foreign_chain_id) + le128(c.amount) + match c.title_id {
        Some(t) => t@,
        None => Seq::empty(),
    } + encode_utf8(c.owner@) + le64(c.nonce) + le64(c.chain_id) + kind_tag(c.kind)
}

/// What [`CustodyCertificate::verify`] accepts for the anchor `sid`.
pub open spec fn spec_custody_ok(c: CustodyCertificate, sid: Seq<u8>) -> bool {
    &&& c.from_pubkey@.len() == PQ_PUBLIC_KEY_SIZE
    &&& spec_matches_pubkey(encode_utf8(c.owner@), c.from_pubkey@)
    &&& c.signature@.len() == crate::crypto::PQ_SIGNATURE_SIZE
    &&& mldsa87_accepts(c.from_pubkey@, spec_digest512(spec_custody_tag(), spec_custody_message(c)), c.signature@)
    &&& (c.dual_signature matches Some(d) ==> spec_dual_signature_ok(d, spec_custody_tag(), spec_custody_message(c)))
    &&& c.settlement_id@ == ascii_chars(hex_encode_spec(sid))
    &&& c.issuer_pubkey@.len() == PQ_PUBLIC_KEY_SIZE
    &&& c.birth_certificate@.len() == crate::crypto::PQ_SIGNATURE_SIZE
    &&& mldsa87_accepts(c.issuer_pubkey@, spec_digest512(spec_birth_certificate_tag(), sid), c.birth_certificate@)
}

fn copy_bytes(v: &Vec<u8>) -> (r: Vec<u8>)
    ensures
        r@ == v@,
{
    let mut out: Vec<u8> = Vec::new();
    push_all(&mut out, v.as_slice());
    proof {
        assert(out@ =~= v@);
    }
    out
}

fn slice_bytes(v: &[u8]) -> (r: Vec<u8>)
    ensures
        r@ == v@,
{
    let mut out: Vec<u8> = Vec::new();
    push_all(&mut out, v);
    proof {
        assert(out@ =~= v@);
    }
    out
}

impl CustodyCertificate {
    /// The signed message bytes.
    pub fn message_bytes(&self) -> (r: Vec<u8>)
        ensures
            r@ == spec_custody_message(*self),
    {
        let mut buf = custody_msg_tag();
        push_all(&mut buf, self.block_hash.as_slice());
        push_all(&mut buf, self.settlement_id.as_str().as_bytes());
        push_all(&mut buf, self.birth_certificate.as_slice());
        push_le64(&mut buf, self.foreign_chain_id);
        push_le128(&mut buf, self.amount);
        match &self.title_id {
            Some(t) => push_all(&mut buf, t.as_slice()),
            None => {},
        }
        push_all(&mut buf, self.owner.as_str().as_bytes());
        push_le64(&mut buf, self.nonce);
        push_le64(&mut buf, self.chain_id);
        let tag = kind_tag_exec(self.kind);
        push_all(&mut buf, tag.as_slice());
        proof {
            assert(buf@ =~= spec_custody_message(*self));
        }
        buf
    }

    /// Sign the custody message with the owner's ML-DSA-87 key.
    pub fn sign(&mut self, secret_key: &[u8]) -> (r: Result<(), String>)
        ensures
            secret_key@.len() != PQ_SECRET_KEY_SIZE ==> r is Err,
            r is Err ==> *final(self) == *old(self),
            *final(self) == (CustodyCertificate { signature: final(self).signature, ..*old(self) }),
            r is Ok ==> final(self).signature@.len() == crate::crypto::PQ_SIGNATURE_SIZE,
            r is Ok ==> forall|pk: Seq<u8>| #[trigger] mldsa87_pair(secret_key@, pk) ==> mldsa87_accepts(pk,
                spec_digest512(spec_custody_tag(), spec_custody_message(*final(self))), final(self).signature@),
    {
        let msg = self.message_bytes();
        let tag = custody_tag();
        match sign_pq512(tag.as_slice(), msg.as_slice(), secret_key) {
            Ok(s) => {
                self.signature = s;
                Ok(())
            },
            Err(e) => Err(e),
        }
    }

    /// Additionally sign with an SLH-DSA keypair.
    pub fn sign_dual(&mut self, keypair: &DualSigKeypair) -> (r: Result<(), String>)
        ensures
            keypair.secret().len() != crate::dual_sig::SECRET_KEY_LEN ==> r is Err,
            r is Err ==> *final(self) == *old(self),
            r is Ok ==> final(self).dual_signature is Some,
            *final(self) == (CustodyCertificate { dual_signature: final(self).dual_signature, ..*old(self) }),
            r is Ok && keypair.genuine() ==> (final(self).dual_signature matches Some(d)
                && spec_dual_signature_ok(d, spec_custody_tag(), spec_custody_message(*final(self)))),
    {
        let msg = self.message_bytes();
        let tag = custody_tag();
        match DualSignature::create(tag.as_slice(), msg.as_slice(), keypair) {
            Ok(d) => {
                self.dual_signature = Some(d);
                Ok(())
            },
            Err(e) => Err(e),
        }
    }

    /// Full verification against the anchoring block's Settlement ID: owner
    /// key, ML-DSA-87 signature, the optional SLH-DSA signature, the
    /// Settlement ID, and the anchor's birth certificate.
    pub fn verify(&self, settlement_id_bytes: &[u8; 64]) -> (r: Result<(), String>)
        ensures
            r is Ok <==> spec_custody_ok(*self, settlement_id_bytes@),
    {
        if self.from_pubkey.len() != PQ_PUBLIC_KEY_SIZE {
            return Err(String::from_str("Invalid custody signer key"));
        }
        if !crate::address::address_matches_pubkey(self.owner.as_str(), self.from_pubkey.as_slice()) {
            return Err(String::from_str("Custody owner does not match signer"));
        }
        let msg = self.message_bytes();
        let tag = custody_tag();
        if !verify_pq512(tag.as_slice(), msg.as_slice(), self.from_pubkey.as_slice(), self.signature.as_slice()) {
            return Err(String::from_str("Invalid custody signature"));
        }
        match &self.dual_signature {
            Some(d) => {
                if !d.verify(tag.as_slice(), msg.as_slice()) {
                    return Err(String::from_str("Invalid secondary (SLH-DSA) custody signature"));
                }
            },
            None => {},
        }
        let sid_hex = hex_encode(settlement_id_bytes.as_slice());
        if !(sid_hex == self.settlement_id) {
            return Err(String::from_str("Settlement ID mismatch on custody certificate"));
        }
        let birth = BirthCertificate { signature: copy_bytes(&self.birth_certificate) };
        let sid = SettlementId(*settlement_id_bytes);
        if !birth.verify(&sid, self.issuer_pubkey.as_slice()) {
            return Err(String::from_str("Birth Certificate failed on custody anchor: block not authentic"));
        }
        Ok(())
    }
}

/// The parameters of [`issue_custody`].
pub struct CustodyRequest<'a> {
    pub kind: CustodyKind,
    pub block: &'a Block,
    pub foreign_chain_id: u64,
    pub amount: u128,
    pub title_id: Option<crate::hash::Hash>,
    pub owner_sk: &'a [u8],
    pub owner_pk: &'a [u8],
    pub nonce: u64,
    pub chain_id: u64,
    /// Optional SLH-DSA keypair for a second signature.
    pub dual_sig_keypair: Option<&'a DualSigKeypair>,
}

/// Build a custody certificate anchored to an already sealed block; the
/// result verifies against that block's Settlement ID.
pub fn issue_custody(req: CustodyRequest) -> (r: Result<CustodyCertificate, String>)
    ensures
        !spec_issuance_ok(*req.block) ==> r is Err,
        req.owner_sk@.len() != PQ_SECRET_KEY_SIZE ==> r is Err,
        r matches Ok(c) ==> {
            &&& spec_custody_ok(c, spec_settlement_id(*req.block))
            &&& c.kind == req.kind
            &&& c.block_hash@ == spec_block_hash(*req.block)
            &&& c.foreign_chain_id == req.foreign_chain_id
            &&& c.amount == req.amount
            &&& c.title_id == req.title_id
            &&& c.owner@ == ascii_chars(spec_encode_hash(spec_address_hash(req.owner_pk@)))
            &&& c.nonce == req.nonce
            &&& c.chain_id == req.chain_id
            &&& c.from_pubkey@ == req.owner_pk@
            &&& c.issuer_pubkey@ == req.block.creator_pubkey@
            &&& (req.dual_sig_keypair is Some <==> c.dual_signature is Some)
        },
{
    match req.block.verify_issuance() {
        Ok(()) => {},
        Err(e) => return Err(e),
    }
    let sid = req.block.settlement_id();
    let mut cert = CustodyCertificate {
        kind: req.kind,
        block_hash: req.block.hash(),
        settlement_id: sid.to_hex(),
        birth_certificate: copy_bytes(&req.block.birth_certificate.signature),
        issuer_pubkey: copy_bytes(&req.block.creator_pubkey),
        foreign_chain_id: req.foreign_chain_id,
        amount: req.amount,
        title_id: req.title_id,
        owner: crate::address::encode_address(req.owner_pk),
        nonce: req.nonce,
        chain_id: req.chain_id,
        signature: Vec::new(),
        from_pubkey: slice_bytes(req.owner_pk),
        dual_signature: None,
    };
    match cert.sign(req.owner_sk) {
        Ok(()) => {},
        Err(e) => return Err(e),
    }
    match req.dual_sig_keypair {
        Some(kp) => match cert.sign_dual(kp) {
            Ok(()) => {},
            Err(e) => return Err(e),
        },
        None => {},
    }
    match cert.verify(&sid.0) {
        Ok(()) => {},
        Err(e) => return Err(e),
    }
    Ok(cert)
}

/// Two optional digests name the same value.
pub open spec fn same_title(a: Option<crate::hash::Hash>, b: Option<crate::hash::Hash>) -> bool {
    match (a, b) {
        (Some(x), Some(y)) => x@ == y@,
        (None, None) => true,
        _ => false,
    }
}

/// The anchor bytes named by a hex Settlement ID.
pub open spec fn sid_bytes(s: Seq<char>) -> Option<Seq<u8>> {
    match hex_decode_spec(encode_utf8(s)) {
        Some(b) => if b.len() == 64 { Some(b) } else { None },
        None => None,
    }
}

/// What [`verify_round_trip`] accepts.
pub open spec fn spec_round_trip_ok(a: CustodyCertificate, b: CustodyCertificate) -> bool {
    &&& ((a.kind == CustodyKind::BridgeExit && b.kind == CustodyKind::BridgeEnter)
        || (a.kind == CustodyKind::StakeLock && b.kind == CustodyKind::StakeUnlock))
    &&& a.owner@ == b.owner@
    &&& a.amount == b.amount
    &&& same_title(a.title_id, b.title_id)
    &&& (a.kind == CustodyKind::BridgeExit ==> a.foreign_chain_id == b.foreign_chain_id)
    &&& sid_bytes(a.settlement_id@) matches Some(sa)
    &&& sid_bytes(b.settlement_id@) matches Some(sb)
    &&& spec_custody_ok(a, sa)
    &&& spec_custody_ok(b, sb)
}

fn decode_sid(s: &String) -> (r: Option<[u8; 64]>)
    ensures
        match r {
            Some(a) => sid_bytes(s@) == Some(a@),
            None => sid_bytes(s@) is None,
        },
{
    match hex_decode(s.as_str().as_bytes()) {
        Some(b) => {
            if b.len() == 64 {
                Some(crate::hash::hash_from_vec(&b).0)
            } else {
                None
            }
        },
        None => None,
    }
}

/// Verify a returning (bridge enter) or unlock event against the earlier
/// exit or lock: matching kinds, owner, amount, title and foreign chain, and
/// each certificate valid against its own anchor.
pub fn verify_round_trip(exit_or_lock: &CustodyCertificate, enter_or_unlock: &CustodyCertificate) -> (r: Result<(), String>)
    ensures
        r is Ok <==> spec_round_trip_ok(*exit_or_lock, *enter_or_unlock),
{
    let a = exit_or_lock;
    let b = enter_or_unlock;
    let pair_ok = match (a.kind, b.kind) {
        (CustodyKind::BridgeExit, CustodyKind::BridgeEnter) => true,
        (CustodyKind::StakeLock, CustodyKind::StakeUnlock) => true,
        _ => false,
    };
    if !pair_ok {
        return Err(String::from_str("Custody pair kinds do not form an exit to entry or lock to unlock"));
    }
    if !(a.owner == b.owner) {
        return Err(String::from_str("Custody round-trip owner mismatch"));
    }
    if a.amount != b.amount {
        return Err(String::from_str("Custody round-trip amount mismatch"));
    }
    let titles = match (&a.title_id, &b.title_id) {
        (Some(x), Some(y)) => x.equals(y),
        (None, None) => true,
        _ => false,
    };
    if !titles {
        return Err(String::from_str("Custody round-trip title mismatch"));
    }
    let is_exit = match a.kind {
        CustodyKind::BridgeExit => true,
        _ => false,
    };
    if is_exit && a.foreign_chain_id != b.foreign_chain_id {
        return Err(String::from_str("Bridge enter must cite the same foreign chain as exit"));
    }
    let exit_sid = match decode_sid(&a.settlement_id) {
        Some(s) => s,
        None => return Err(String::from_str("bad exit settlement id")),
    };
    let enter_sid = match decode_sid(&b.settlement_id) {
        Some(s) => s,
        None => return Err(String::from_str("bad enter settlement id")),
    };
    match a.verify(&exit_sid) {
        Ok(()) => {},
        Err(e) => return Err(e),
    }
    match b.verify(&enter_sid) {
        Ok(()) => {},
        Err(e) => return Err(e),
    }
    Ok(())
}

} // verus!
