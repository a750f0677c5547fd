//! Transparent (account-model) transfers: the canonical signed bytes, the
//! wire size used for fee pricing, structural validation and the ML-DSA-87
//! signature over the Blake3-512 prehash.

use vstd::prelude::*;
use vstd::string::StringExecFns;
use vstd::utf8::encode_utf8;
use vstd::math::min;
use crate::abs_sig::{is_abs_of, sign_pq512, verify_pq512, AbsSignature};
use crate::address::{encode_address, is_valid_hassan_address, spec_encode_hash, spec_matches_pubkey, spec_valid_address, address_matches_pubkey};
use crate::bytes::{ascii_chars, le128, le32, le64, push_all, push_le128, push_le32, push_le64};
use crate::crypto::{mldsa87_accepts, mldsa87_pair, PQ_PUBLIC_KEY_SIZE, PQ_SECRET_KEY_SIZE, PQ_SIGNATURE_SIZE};
use crate::genesis::{DUST_THRESHOLD, MIN_TX_FEE};
use crate::hash::{digest512, digest512_hash, spec_address_hash, spec_digest512};
use crate::pow::{min_relay_fee_for_bytes, spec_min_relay_fee};

verus! {

/// The byte tag `transparent-tx`.
pub open spec fn spec_transparent_tx_tag() -> Seq<u8> {
    seq![116u8, 114u8, 97u8, 110u8, 115u8, 112u8, 97u8, 114u8, 101u8, 110u8, 116u8, 45u8, 116u8, 120u8]
}

/// The byte tag `transparent-tx`.
pub fn transparent_tx_tag() -> (r: Vec<u8>)
    ensures
        r@ == spec_transparent_tx_tag(),
{
    vec![116u8, 114u8, 97u8, 110u8, 115u8, 112u8, 97u8, 114u8, 101u8, 110u8, 116u8, 45u8, 116u8, 120u8]
}

/// The byte tag `tx-hash`.
pub open spec fn spec_tx_hash_tag() -> Seq<u8> {
    seq![116u8, 120u8, 45u8, 104u8, 97u8, 115u8, 104u8]
}

/// The byte tag `tx-hash`.
pub fn tx_hash_tag() -> (r: Vec<u8>)
    ensures
        r@ == spec_tx_hash_tag(),
{
    vec![116u8, 120u8, 45u8, 104u8, 97u8, 115u8, 104u8]
}

/// A signed, fully transparent transfer between two addresses.
#[derive(Clone, Debug)]
pub struct TransparentTx {
    pub from: String,
    /// Full ML-DSA-87 public key of the sender.
    pub from_pubkey: Vec<u8>,
    pub to: String,
    pub amount: u128,
    /// Burned fee in base units.
    pub fee: u128,
    pub nonce: u64,
    pub chain_id: u64,
    /// Absolute lock: the selected tip's blue score must reach this (0 = none).
    pub lock_blue_score: u64,
    /// Relative lock: blues since the sender's last spend.
    pub relative_lock_blues: u32,
    /// Optional hashlock covenant.
    pub hashlock: Option<crate::hash::Hash>,
    /// Preimage unlocking `hashlock` (not signed; bound into `tx_hash`).
    pub hashlock_preimage: Vec<u8>,
    pub signature: Vec<u8>,
}

/// The mathematical content of a transfer.
pub struct TxView {
    pub from: Seq<char>,
    pub from_pubkey: Seq<u8>,
    pub to: Seq<char>,
    pub amount: u128,
    pub fee: u128,
    pub nonce: u64,
    pub chain_id: u64,
    pub lock_blue_score: u64,
    pub relative_lock_blues: u32,
    pub hashlock: Option<Seq<u8>>,
    pub hashlock_preimage: Seq<u8>,
    pub signature: Seq<u8>,
}

impl View for TransparentTx {
    type V = TxView;

    open spec fn view(&self) -> TxView {
        TxView {
            from: self.from@,
            from_pubkey: self.from_pubkey@,
            to: self.to@,
            amount: self.amount,
            fee: self.fee,
            nonce: self.nonce,
            chain_id: self.chain_id,
            lock_blue_score: self.lock_blue_score,
            relative_lock_blues: self.relative_lock_blues,
            hashlock: match self.hashlock {
                Some(h) => Some(h@),
                None => None,
            },
            hashlock_preimage: self.hashlock_preimage@,
            signature: self.signature@,
        }
    }
}

/// The canonical bytes that are signed: every field that affects the state
/// transition, in a fixed order.
pub open spec fn spec_signing_bytes(t: TxView) -> Seq<u8> {
    encode_utf8(t.from) + encode_utf8(t.to) + le128(t.amount) + le128(t.fee) + le64(t.nonce)
        + le64(t.chain_id) + le64(t.lock_blue_score) + le32(t.relative_lock_blues) + match t.hashlock {
        Some(h) => seq![1u8] + h,
        None => seq![0u8],
    }
}

/// Wire size of the transfer in its fixed-width binary form (64-bit length
/// prefixes, fixed-width integers, one tag byte for the optional hashlock),
/// priced as if it carried a full ML-DSA-87 signature.
pub open spec fn spec_relay_bytes(t: TxView) -> nat {
    (101 + encode_utf8(t.from).len() + t.from_pubkey.len() + encode_utf8(t.to).len()
        + t.hashlock_preimage.len() + PQ_SIGNATURE_SIZE + if t.hashlock is Some {
        64int
    } else {
        0int
    }) as nat
}

/// The wire size as a machine word (saturating).
pub open spec fn relay_bytes_usize(t: TxView) -> nat {
    if spec_relay_bytes(t) <= usize::MAX {
        spec_relay_bytes(t)
    } else {
        usize::MAX as nat
    }
}

/// The minimum fee for this transfer: size density and absolute floor.
pub open spec fn spec_min_fee(t: TxView) -> nat {
    spec_min_relay_fee(relay_bytes_usize(t))
}

/// Structural validity: addresses, amounts, fee floor, key and signature sizes.
pub open spec fn spec_form_ok(t: TxView) -> bool {
    &&& spec_valid_address(encode_utf8(t.from))
    &&& spec_valid_address(encode_utf8(t.to))
    &&& t.amount != 0
    &&& t.amount >= DUST_THRESHOLD
    &&& t.fee >= spec_min_fee(t)
    &&& t.amount + t.fee <= u128::MAX
    &&& t.from_pubkey.len() == PQ_PUBLIC_KEY_SIZE
    &&& (t.signature.len() == PQ_SIGNATURE_SIZE || t.signature.len() == 0)
}

/// Full verification: `from` names `from_pubkey`, and the signature verifies
/// over the prehashed signing bytes.
pub open spec fn spec_tx_verify(t: TxView) -> bool {
    &&& spec_matches_pubkey(encode_utf8(t.from), t.from_pubkey)
    &&& t.from_pubkey.len() == PQ_PUBLIC_KEY_SIZE
    &&& t.signature.len() == PQ_SIGNATURE_SIZE
    &&& mldsa87_accepts(t.from_pubkey, spec_digest512(spec_transparent_tx_tag(), spec_signing_bytes(t)), t.signature)
}

/// Transaction id: Blake3-512 (`tx-hash` domain) of the signing bytes, the
/// signature and the hashlock preimage.
pub open spec fn spec_tx_hash(t: TxView) -> Seq<u8> {
    spec_digest512(spec_tx_hash_tag(), spec_signing_bytes(t) + t.signature + t.hashlock_preimage)
}

/// `t` with its signature replaced.
pub open spec fn with_signature(t: TxView, s: Seq<u8>) -> TxView {
    TxView { signature: s, ..t }
}

/// An unsigned transfer from `pubkey` with every optional field empty.
pub open spec fn spec_unsigned(pubkey: Seq<u8>, to: Seq<char>, amount: u128, fee: u128, nonce: u64, chain_id: u64) -> TxView {
    TxView {
        from: ascii_chars(spec_encode_hash(spec_address_hash(pubkey))),
        from_pubkey: pubkey,
        to: to,
        amount: amount,
        fee: fee,
        nonce: nonce,
        chain_id: chain_id,
        lock_blue_score: 0,
        relative_lock_blues: 0,
        hashlock: None,
        hashlock_preimage: Seq::empty(),
        signature: Seq::empty(),
    }
}

fn copy_bytes(v: &Vec<u8>) -> (r: Vec<u8>)
    ensures
        r@ == v@,
{
    let mut out: Vec<u8> = Vec::new();
    push_all(&mut out, v.as_slice());
    proof {
        assert(out@ =~= v@);
    }
    out
}

fn err_msg(s: &str) -> (r: String)
    ensures
        r@ == s@,
{
    String::from_str(s)
}

impl TransparentTx {
    /// A copy with the same content.
    pub fn duplicate(&self) -> (r: TransparentTx)
        ensures
            r@ == self@,
    {
        TransparentTx {
            from: self.from.clone(),
            from_pubkey: copy_bytes(&self.from_pubkey),
            to: self.to.clone(),
            amount: self.amount,
            fee: self.fee,
            nonce: self.nonce,
            chain_id: self.chain_id,
            lock_blue_score: self.lock_blue_score,
            relative_lock_blues: self.relative_lock_blues,
            hashlock: self.hashlock,
            hashlock_preimage: copy_bytes(&self.hashlock_preimage),
            signature: copy_bytes(&self.signature),
        }
    }

    /// Wire size used for density pricing; unsigned drafts are priced as if
    /// they already carried a full ML-DSA-87 signature.
    pub fn relay_bytes(&self) -> (r: usize)
        ensures
            r == relay_bytes_usize(self@),
    {
        let from_len = self.from.as_str().as_bytes().len();
        let to_len = self.to.as_str().as_bytes().len();
        let ghost t = self@;
        let ghost m = usize::MAX as int;
        let mut n: usize = 101;
        n = n.saturating_add(from_len);
        assert(n == min(101int + encode_utf8(t.from).len(), m));
        n = n.saturating_add(self.from_pubkey.len());
        assert(n == min(101int + encode_utf8(t.from).len() + t.from_pubkey.len(), m));
        n = n.saturating_add(to_len);
        assert(n == min(101int + encode_utf8(t.from).len() + t.from_pubkey.len() + encode_utf8(t.to).len(), m));
        n = n.saturating_add(self.hashlock_preimage.len());
        assert(n == min(101int + encode_utf8(t.from).len() + t.from_pubkey.len() + encode_utf8(t.to).len()
            + t.hashlock_preimage.len(), m));
        n = n.saturating_add(PQ_SIGNATURE_SIZE);
        assert(n == min(101int + encode_utf8(t.from).len() + t.from_pubkey.len() + encode_utf8(t.to).len()
            + t.hashlock_preimage.len() + PQ_SIGNATURE_SIZE, m));
        if self.hashlock.is_some() {
            n = n.saturating_add(64);
        }
        n
    }

    /// Consensus and mempool fee floor for this transfer.
    pub fn min_fee_required(&self) -> (r: u128)
        ensures
            r == spec_min_fee(self@),
    {
        min_relay_fee_for_bytes(self.relay_bytes())
    }

    /// An unsigned transfer with an explicit fee.
    pub fn new_with_fee(from_pubkey: Vec<u8>, to: String, amount: u128, fee: u128, nonce: u64, chain_id: u64) -> (r: TransparentTx)
        ensures
            r@ == spec_unsigned(from_pubkey@, to@, amount, fee, nonce, chain_id),
    {
        let from = encode_address(from_pubkey.as_slice());
        TransparentTx {
            from,
            from_pubkey,
            to,
            amount,
            fee,
            nonce,
            chain_id,
            lock_blue_score: 0,
            relative_lock_blues: 0,
            hashlock: None,
            hashlock_preimage: Vec::new(),
            signature: Vec::new(),
        }
    }

    /// An unsigned transfer priced at its size-based minimum fee.
    pub fn new(from_pubkey: Vec<u8>, to: String, amount: u128, nonce: u64, chain_id: u64) -> (r: TransparentTx)
        ensures
            r@ == (TxView { fee: r.fee, ..spec_unsigned(from_pubkey@, to@, amount, MIN_TX_FEE, nonce, chain_id) }),
            r.fee == spec_min_fee(r@),
    {
        let mut tx = Self::new_with_fee(from_pubkey, to, amount, MIN_TX_FEE, nonce, chain_id);
        let f = tx.min_fee_required();
        tx.fee = f;
        proof {
            assert(relay_bytes_usize(tx@) == relay_bytes_usize(TxView { fee: MIN_TX_FEE, ..tx@ }));
        }
        tx
    }

    /// Structural checks (address forms, amounts, key and signature sizes);
    /// no cryptography.
    pub fn validate_form(&self) -> (r: Result<(), String>)
        ensures
            r is Ok <==> spec_form_ok(self@),
            !spec_valid_address(encode_utf8(self.from@)) ==> (r matches Err(e) && e@ == "Invalid from address"@),
            spec_valid_address(encode_utf8(self.from@)) && !spec_valid_address(encode_utf8(self.to@))
                ==> (r matches Err(e) && e@ == "Invalid to address"@),
    {
        if !is_valid_hassan_address(self.from.as_str()) {
            return Err(err_msg("Invalid from address"));
        }
        if !is_valid_hassan_address(self.to.as_str()) {
            return Err(err_msg("Invalid to address"));
        }
        if self.amount == 0 {
            return Err(err_msg("Amount must be > 0"));
        }
        if self.amount < DUST_THRESHOLD {
            return Err(err_msg("Amount below dust threshold (546 base units)"));
        }
        let need = self.min_fee_required();
        if self.fee < need {
            return Err(err_msg("Fee below the size-priced minimum"));
        }
        if self.amount.checked_add(self.fee).is_none() {
            return Err(err_msg("amount+fee overflow"));
        }
        if self.from_pubkey.len() != PQ_PUBLIC_KEY_SIZE {
            return Err(err_msg("Invalid from_pubkey length"));
        }
        if self.signature.len() != PQ_SIGNATURE_SIZE {
            if self.signature.len() != 0 {
                return Err(err_msg("Invalid signature length"));
            }
        }
        Ok(())
    }

    /// The canonical bytes that get signed and verified.
    pub fn signing_bytes(&self) -> (r: Vec<u8>)
        ensures
            r@ == spec_signing_bytes(self@),
    {
        let mut buf: Vec<u8> = Vec::new();
        push_all(&mut buf, self.from.as_str().as_bytes());
        push_all(&mut buf, self.to.as_str().as_bytes());
        push_le128(&mut buf, self.amount);
        push_le128(&mut buf, self.fee);
        push_le64(&mut buf, self.nonce);
        push_le64(&mut buf, self.chain_id);
        push_le64(&mut buf, self.lock_blue_score);
        push_le32(&mut buf, self.relative_lock_blues);
        match &self.hashlock {
            Some(h) => {
                buf.push(1u8);
                push_all(&mut buf, h.as_slice());
            },
            None => {
                buf.push(0u8);
            },
        }
        proof {
            assert(buf@ =~= spec_signing_bytes(self@));
        }
        buf
    }

    /// Sign with the secret key matching `from_pubkey`.
    pub fn sign(&mut self, signing_key_bytes: &[u8]) -> (r: Result<(), String>)
        ensures
            signing_key_bytes@.len() != PQ_SECRET_KEY_SIZE ==> r is Err,
            r is Err ==> final(self)@ == old(self)@,
            r is Ok ==> final(self)@ == with_signature(old(self)@, final(self)@.signature),
            r is Ok ==> final(self)@.signature.len() == PQ_SIGNATURE_SIZE,
            r is Ok ==> forall|pk: Seq<u8>| #[trigger] mldsa87_pair(signing_key_bytes@, pk) ==> mldsa87_accepts(pk,
                spec_digest512(spec_transparent_tx_tag(), spec_signing_bytes(final(self)@)), final(self)@.signature),
            r is Ok && mldsa87_pair(signing_key_bytes@, old(self)@.from_pubkey)
                && spec_matches_pubkey(encode_utf8(old(self)@.from), old(self)@.from_pubkey) ==> spec_tx_verify(final(self)@),
    {
        let msg = self.signing_bytes();
        let tag = transparent_tx_tag();
        match sign_pq512(tag.as_slice(), msg.as_slice(), signing_key_bytes) {
            Ok(s) => {
                self.signature = s;
                Ok(())
            },
            Err(e) => Err(e),
        }
    }

    /// Full verification: `from` is the address of `from_pubkey` (bech32m or
    /// legacy hex), then the ML-DSA-87 signature over the prehash.
    pub fn verify(&self) -> (r: bool)
        ensures
            r == spec_tx_verify(self@),
    {
        if !address_matches_pubkey(self.from.as_str(), self.from_pubkey.as_slice()) {
            return false;
        }
        let msg = self.signing_bytes();
        let tag = transparent_tx_tag();
        verify_pq512(tag.as_slice(), msg.as_slice(), self.from_pubkey.as_slice(), self.signature.as_slice())
    }

    /// Transaction id.
    pub fn tx_hash(&self) -> (r: crate::hash::Hash)
        ensures
            r@ == spec_tx_hash(self@),
    {
        let mut buf = self.signing_bytes();
        push_all(&mut buf, self.signature.as_slice());
        push_all(&mut buf, self.hashlock_preimage.as_slice());
        let tag = tx_hash_tag();
        digest512_hash(tag.as_slice(), buf.as_slice())
    }

    /// The absolute binding signature view (number + type 87).
    pub fn abs_signature(&self) -> (r: AbsSignature)
        ensures
            is_abs_of(r, spec_digest512(spec_transparent_tx_tag(), spec_signing_bytes(self@)),
                self@.signature, self@.from_pubkey),
    {
        let msg = self.signing_bytes();
        let tag = transparent_tx_tag();
        let digest = digest512(tag.as_slice(), msg.as_slice());
        AbsSignature::from_parts(&digest, self.signature.as_slice(), self.from_pubkey.as_slice())
    }
}

} // verus!
