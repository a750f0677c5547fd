//! Blocks: the proof-of-work identity hash, the 512-bit Settlement ID, the
//! body commitment, wire sizes, the genesis block and birth certificates.

use vstd::prelude::*;
use vstd::string::StringExecFns;
use vstd::utf8::encode_utf8;
use vstd::math::min;
use crate::abs_sig::{sign_pq512, verify_pq512};
use crate::bytes::{ascii_chars, hex_encode, hex_encode_spec, le32, le64, push_all, push_le32, push_le64};
use crate::crypto::{blake3_xof, blake3_xof_bytes, mldsa87_accepts, mldsa87_pair, PQ_PUBLIC_KEY_SIZE, PQ_SECRET_KEY_SIZE, PQ_SIGNATURE_SIZE};
use crate::genesis::{genesis_domain, spec_genesis_domain, GENESIS_DIFFICULTY, GENESIS_TIMESTAMP_MS, MAX_BLOCK_SIZE, CHAIN_ID};
use crate::hash::{address_hash, digest512_hash, hash_from_vec, spec_address_hash, spec_digest512};
use crate::tx::{spec_tx_hash, TransparentTx, TxView};

verus! {

/// The byte tag `hassan-settlement-id-v1`.
pub open spec fn spec_settlement_domain() -> Seq<u8> {
    seq![104u8, 97u8, 115u8, 115u8, 97u8, 110u8, 45u8, 115u8, 101u8, 116u8, 116u8, 108u8, 101u8, 109u8, 101u8, 110u8, 116u8, 45u8, 105u8, 100u8, 45u8, 118u8, 49u8]
}

/// The byte tag `hassan-settlement-id-v1`.
pub fn settlement_domain() -> (r: Vec<u8>)
    ensures
        r@ == spec_settlement_domain(),
{
    vec![104u8, 97u8, 115u8, 115u8, 97u8, 110u8, 45u8, 115u8, 101u8, 116u8, 116u8, 108u8, 101u8, 109u8, 101u8, 110u8, 116u8, 45u8, 105u8, 100u8, 45u8, 118u8, 49u8]
}

/// The byte tag `birth-certificate`.
pub open spec fn spec_birth_certificate_tag() -> Seq<u8> {
    seq![98u8, 105u8, 114u8, 116u8, 104u8, 45u8, 99u8, 101u8, 114u8, 116u8, 105u8, 102u8, 105u8, 99u8, 97u8, 116u8, 101u8]
}

/// The byte tag `birth-certificate`.
pub fn birth_certificate_tag() -> (r: Vec<u8>)
    ensures
        r@ == spec_birth_certificate_tag(),
{
    vec![98u8, 105u8, 114u8, 116u8, 104u8, 45u8, 99u8, 101u8, 114u8, 116u8, 105u8, 102u8, 105u8, 99u8, 97u8, 116u8, 101u8]
}

/// The byte tag `hassan-block-body-v4`.
pub open spec fn spec_block_body_tag() -> Seq<u8> {
    seq![104u8, 97u8, 115u8, 115u8, 97u8, 110u8, 45u8, 98u8, 108u8, 111u8, 99u8, 107u8, 45u8, 98u8, 111u8, 100u8, 121u8, 45u8, 118u8, 52u8]
}

/// The byte tag `hassan-block-body-v4`.
pub fn block_body_tag() -> (r: Vec<u8>)
    ensures
        r@ == spec_block_body_tag(),
{
    vec![104u8, 97u8, 115u8, 115u8, 97u8, 110u8, 45u8, 98u8, 108u8, 111u8, 99u8, 107u8, 45u8, 98u8, 111u8, 100u8, 121u8, 45u8, 118u8, 52u8]
}

/// The byte tag `chain-hash`.
pub open spec fn spec_chain_hash_tag() -> Seq<u8> {
    seq![99u8, 104u8, 97u8, 105u8, 110u8, 45u8, 104u8, 97u8, 115u8, 104u8]
}

/// The byte tag `chain-hash`.
pub fn chain_hash_tag() -> (r: Vec<u8>)
    ensures
        r@ == spec_chain_hash_tag(),
{
    vec![99u8, 104u8, 97u8, 105u8, 110u8, 45u8, 104u8, 97u8, 115u8, 104u8]
}

/// Version bits every new block carries by default (the BIP9 top bits).
pub const VERSIONBITS_TOP_BITS: u32 = 0x2000_0000;

/// The default block version.
pub fn default_block_version() -> (r: u32)
    ensures
        r == VERSIONBITS_TOP_BITS,
{
    VERSIONBITS_TOP_BITS
}

/// Size in bytes of a Settlement ID.
pub const SETTLEMENT_ID_SIZE: usize = 64;

/// A block's permanent 512-bit reference number.
#[derive(Clone, Copy, Debug)]
pub struct SettlementId(pub [u8; 64]);

impl SettlementId {
    /// The identifier bytes.
    pub fn as_bytes(&self) -> (r: &[u8; 64])
        ensures
            r@ == self.0@,
    {
        &self.0
    }

    /// Lowercase hex of the identifier.
    pub fn to_hex(&self) -> (r: String)
        ensures
            r@ == ascii_chars(hex_encode_spec(self.0@)),
    {
        hex_encode(self.0.as_slice())
    }
}

/// ML-DSA-87 signature over a block's Settlement ID.
#[derive(Clone, Debug)]
pub struct BirthCertificate {
    pub signature: Vec<u8>,
}

impl Default for BirthCertificate {
    fn default() -> (r: BirthCertificate)
        ensures
            r.signature@.len() == 0,
    {
        BirthCertificate { signature: Vec::new() }
    }
}

impl BirthCertificate {
    /// Issue a certificate: sign the Settlement ID (under the
    /// `birth-certificate` domain, after the 512-bit prehash).
    pub fn issue(settlement_id: &SettlementId, secret_key: &[u8]) -> (r: Result<BirthCertificate, String>)
        ensures
            secret_key@.len() != PQ_SECRET_KEY_SIZE ==> r is Err,
            r matches Ok(c) ==> c.signature@.len() == PQ_SIGNATURE_SIZE,
            r matches Ok(c) ==> forall|pk: Seq<u8>| #[trigger] mldsa87_pair(secret_key@, pk)
                ==> mldsa87_accepts(pk, spec_digest512(spec_birth_certificate_tag(), settlement_id.0@), c.signature@),
    {
        let tag = birth_certificate_tag();
        match sign_pq512(tag.as_slice(), settlement_id.0.as_slice(), secret_key) {
            Ok(sig) => Ok(BirthCertificate { signature: sig }),
            Err(e) => Err(e),
        }
    }

    /// Check the certificate against the issuer's public key.
    pub fn verify(&self, settlement_id: &SettlementId, issuer_pubkey: &[u8]) -> (r: bool)
        ensures
            r == (issuer_pubkey@.len() == PQ_PUBLIC_KEY_SIZE && self.signature@.len() == PQ_SIGNATURE_SIZE
                && mldsa87_accepts(issuer_pubkey@, spec_digest512(spec_birth_certificate_tag(), settlement_id.0@),
                self.signature@)),
    {
        if issuer_pubkey.len() != PQ_PUBLIC_KEY_SIZE {
            return false;
        }
        let tag = birth_certificate_tag();
        verify_pq512(tag.as_slice(), settlement_id.0.as_slice(), issuer_pubkey, self.signature.as_slice())
    }
}

/// A block of the DAG. Its body carries transparent transfers; the
/// witness data (STARK proof, birth certificate) sits outside the base size.
#[derive(Clone, Debug)]
pub struct Block {
    pub height: u64,
    pub timestamp: u64,
    pub parents: Vec<crate::hash::Hash>,
    /// Skip links to earlier superblocks along the selected chain.
    pub interlinks: Vec<crate::hash::Hash>,
    pub transparent_txs: Vec<TransparentTx>,
    pub merkle_root: crate::hash::Hash,
    pub state_root: crate::hash::Hash,
    pub miner: crate::hash::Hash,
    /// ML-DSA-87 public key of the block creator; must hash to `miner`.
    pub creator_pubkey: Vec<u8>,
    pub nonce: u64,
    pub difficulty: u64,
    pub version: u32,
    pub coinbase_entropy: u64,
    pub stark_proof: Vec<u8>,
    pub birth_certificate: BirthCertificate,
    pub size: usize,
}

/// The block holds no transfers, no STARK proof and no certificate signature.
pub open spec fn body_empty(b: Block) -> bool {
    &&& b.transparent_txs@.len() == 0
    &&& b.stark_proof@.len() == 0
    &&& b.birth_certificate.signature@.len() == 0
}

/// `n` is `b` with its body removed and every header field and the size kept.
pub open spec fn body_stripped(b: Block, n: Block) -> bool {
    &&& body_empty(n)
    &&& n.height == b.height
    &&& n.timestamp == b.timestamp
    &&& n.parents@ == b.parents@
    &&& n.interlinks@ == b.interlinks@
    &&& n.merkle_root == b.merkle_root
    &&& n.state_root == b.state_root
    &&& n.miner == b.miner
    &&& n.creator_pubkey@ == b.creator_pubkey@
    &&& n.nonce == b.nonce
    &&& n.difficulty == b.difficulty
    &&& n.version == b.version
    &&& n.coinbase_entropy == b.coinbase_entropy
    &&& n.size == b.size
}

/// Stripping a body keeps the block hash.
pub proof fn lemma_stripped_hash(b: Block, n: Block)
    requires
        body_stripped(b, n),
    ensures
        spec_block_hash(n) == spec_block_hash(b),
{
    assert(spec_identity(n) =~= spec_identity(b));
}

/// Concatenated bytes of a list of digests.
pub open spec fn hashes_bytes(h: Seq<crate::hash::Hash>) -> Seq<u8>
    decreases h.len(),
{
    if h.len() == 0 {
        Seq::empty()
    } else {
        hashes_bytes(h.drop_last()) + h.last()@
    }
}

/// The consensus identity of a block: every proof-of-work-relevant header
/// field, length-prefixed where variable.
pub open spec fn spec_identity(b: Block) -> Seq<u8> {
    spec_genesis_domain() + le64(b.height) + le64(b.timestamp) + hashes_bytes(b.parents@)
        + le64(b.interlinks@.len() as u64) + hashes_bytes(b.interlinks@) + b.merkle_root@ + b.state_root@
        + b.miner@ + le64(b.creator_pubkey@.len() as u64) + b.creator_pubkey@ + le64(b.nonce)
        + le64(b.difficulty) + le32(b.version)
}

/// The block hash: 64 bytes of Blake3 XOF over the identity.
pub open spec fn spec_block_hash(b: Block) -> Seq<u8> {
    blake3_xof(spec_identity(b), 64)
}

/// The Settlement ID: 64 bytes of Blake3 XOF over the settlement domain and
/// the identity.
pub open spec fn spec_settlement_id(b: Block) -> Seq<u8> {
    blake3_xof(spec_settlement_domain() + spec_identity(b), 64)
}

/// Concatenated ids of a list of transfers.
pub open spec fn tx_hashes_bytes(txs: Seq<TransparentTx>) -> Seq<u8>
    decreases txs.len(),
{
    if txs.len() == 0 {
        Seq::empty()
    } else {
        tx_hashes_bytes(txs.drop_last()) + spec_tx_hash(txs.last()@)
    }
}

/// The body commitment: zero for an empty body, otherwise Blake3 XOF over
/// the body tag, the transfer count and ids, and the (empty) counts of the
/// other operation lists.
pub open spec fn spec_merkle_root(b: Block) -> Seq<u8> {
    if b.transparent_txs@.len() == 0 {
        Seq::new(64, |i: int| 0u8)
    } else {
        blake3_xof(spec_block_body_tag() + le64(b.transparent_txs@.len() as u64) + tx_hashes_bytes(b.transparent_txs@)
            + le64(0) + le64(0) + le64(0), 64)
    }
}

/// Wire size of a transfer in the fixed-width binary form.
pub open spec fn tx_wire_size(t: TxView) -> nat {
    (101 + encode_utf8(t.from).len() + t.from_pubkey.len() + encode_utf8(t.to).len() + t.hashlock_preimage.len()
        + t.signature.len() + if t.hashlock is Some {
        64int
    } else {
        0int
    }) as nat
}

/// Total wire size of a list of transfers.
pub open spec fn txs_wire_size(txs: Seq<TransparentTx>) -> nat
    decreases txs.len(),
{
    if txs.len() == 0 {
        0
    } else {
        txs_wire_size(txs.drop_last()) + tx_wire_size(txs.last()@)
    }
}

/// Wire size of a block in the fixed-width binary form (64-bit length
/// prefixes; empty lists for the operation kinds this body does not carry).
pub open spec fn spec_block_size(b: Block) -> nat {
    316 + 64 * b.parents@.len() + 64 * b.interlinks@.len() + txs_wire_size(b.transparent_txs@)
        + b.creator_pubkey@.len() + b.stark_proof@.len() + b.birth_certificate.signature@.len()
}

/// The base size: the wire size without the witness data.
pub open spec fn spec_base_size(b: Block) -> nat {
    316 + 64 * b.parents@.len() + 64 * b.interlinks@.len() + txs_wire_size(b.transparent_txs@)
        + b.creator_pubkey@.len()
}

/// A size as a machine word, saturating.
pub open spec fn sat_usize(x: nat) -> nat {
    min(x as int, usize::MAX as int) as nat
}

/// `64 * x`, saturating.
fn times64(x: usize) -> (r: usize)
    ensures
        r == sat_usize((64 * x) as nat),
{
    if x > usize::MAX / 64 {
        usize::MAX
    } else {
        x * 64
    }
}

fn copy_hashes(v: &Vec<crate::hash::Hash>) -> (r: Vec<crate::hash::Hash>)
    ensures
        r@ == v@,
{
    let mut out: Vec<crate::hash::Hash> = Vec::new();
    let mut i: usize = 0;
    while i < v.len()
        invariant
            i <= v@.len(),
            out@ == v@.take(i as int),
        decreases v@.len() - i,
    {
        out.push(v[i]);
        proof {
            assert(v@.take(i + 1) =~= v@.take(i as int).push(v@[i as int]));
        }
        i = i + 1;
    }
    proof {
        assert(v@.take(v@.len() as int) =~= v@);
    }
    out
}

fn copy_bytes(v: &Vec<u8>) -> (r: Vec<u8>)
    ensures
        r@ == v@,
{
    let mut out: Vec<u8> = Vec::new();
    push_all(&mut out, v.as_slice());
    proof {
        assert(out@ =~= v@);
    }
    out
}

fn push_hashes(buf: &mut Vec<u8>, h: &Vec<crate::hash::Hash>)
    ensures
        final(buf)@ == old(buf)@ + hashes_bytes(h@),
{
    let ghost start = buf@;
    let mut i: usize = 0;
    proof {
        assert(h@.take(0) =~= Seq::<crate::hash::Hash>::empty());
        assert(buf@ =~= start + hashes_bytes(h@.take(0)));
    }
    while i < h.len()
        invariant
            i <= h@.len(),
            buf@ == start + hashes_bytes(h@.take(i as int)),
        decreases h@.len() - i,
    {
        push_all(buf, h[i].as_slice());
        proof {
            assert(h@.take(i + 1).drop_last() =~= h@.take(i as int));
            assert(h@.take(i + 1).last() == h@[i as int]);
            assert(buf@ =~= start + hashes_bytes(h@.take(i + 1)));
        }
        i = i + 1;
    }
    proof {
        assert(h@.take(h@.len() as int) =~= h@);
    }
}

impl Block {
    /// The consensus identity bytes.
    pub fn identity_bytes(&self) -> (r: Vec<u8>)
        ensures
            r@ == spec_identity(*self),
    {
        let mut buf = genesis_domain();
        push_le64(&mut buf, self.height);
        push_le64(&mut buf, self.timestamp);
        push_hashes(&mut buf, &self.parents);
        push_le64(&mut buf, self.interlinks.len() as u64);
        push_hashes(&mut buf, &self.interlinks);
        push_all(&mut buf, self.merkle_root.as_slice());
        push_all(&mut buf, self.state_root.as_slice());
        push_all(&mut buf, self.miner.as_slice());
        push_le64(&mut buf, self.creator_pubkey.len() as u64);
        push_all(&mut buf, self.creator_pubkey.as_slice());
        push_le64(&mut buf, self.nonce);
        push_le64(&mut buf, self.difficulty);
        push_le32(&mut buf, self.version);
        proof {
            assert(buf@ =~= spec_identity(*self));
        }
        buf
    }

    /// The proof-of-work hash of the block identity.
    pub fn hash(&self) -> (r: crate::hash::Hash)
        ensures
            r@ == spec_block_hash(*self),
    {
        let id = self.identity_bytes();
        let v = blake3_xof_bytes(id.as_slice(), 64);
        hash_from_vec(&v)
    }

    /// The 512-bit Settlement ID.
    pub fn settlement_id(&self) -> (r: SettlementId)
        ensures
            r.0@ == spec_settlement_id(*self),
    {
        let mut buf = settlement_domain();
        let id = self.identity_bytes();
        push_all(&mut buf, id.as_slice());
        let v = blake3_xof_bytes(buf.as_slice(), 64);
        SettlementId(hash_from_vec(&v).0)
    }

    /// This block with its body (transfers, STARK proof and birth
    /// certificate) removed; every header field, and the recorded size, kept.
    pub(crate) fn without_body(&self) -> (r: Block)
        ensures
            body_stripped(*self, r),
    {
        Block {
            height: self.height,
            timestamp: self.timestamp,
            parents: copy_hashes(&self.parents),
            interlinks: copy_hashes(&self.interlinks),
            transparent_txs: Vec::new(),
            merkle_root: self.merkle_root,
            state_root: self.state_root,
            miner: self.miner,
            creator_pubkey: copy_bytes(&self.creator_pubkey),
            nonce: self.nonce,
            difficulty: self.difficulty,
            version: self.version,
            coinbase_entropy: self.coinbase_entropy,
            stark_proof: Vec::new(),
            birth_certificate: BirthCertificate { signature: Vec::new() },
            size: self.size,
        }
    }

    /// A header-only copy: identical proof-of-work fields (so the hash is
    /// unchanged) with the body, STARK proof and birth certificate stripped.
    pub fn header_only(&self) -> (r: Block)
        ensures
            spec_identity(r) == spec_identity(*self),
            r.height == self.height,
            r.timestamp == self.timestamp,
            r.parents@ == self.parents@,
            r.interlinks@ == self.interlinks@,
            r.transparent_txs@.len() == 0,
            r.merkle_root == self.merkle_root,
            r.state_root == self.state_root,
            r.miner == self.miner,
            r.creator_pubkey@ == self.creator_pubkey@,
            r.nonce == self.nonce,
            r.difficulty == self.difficulty,
            r.version == self.version,
            r.coinbase_entropy == self.coinbase_entropy,
            r.stark_proof@.len() == 0,
            r.birth_certificate.signature@.len() == 0,
            r.size == 0,
    {
        Block {
            height: self.height,
            timestamp: self.timestamp,
            parents: copy_hashes(&self.parents),
            interlinks: copy_hashes(&self.interlinks),
            transparent_txs: Vec::new(),
            merkle_root: self.merkle_root,
            state_root: self.state_root,
            miner: self.miner,
            creator_pubkey: copy_bytes(&self.creator_pubkey),
            nonce: self.nonce,
            difficulty: self.difficulty,
            version: self.version,
            coinbase_entropy: self.coinbase_entropy,
            stark_proof: Vec::new(),
            birth_certificate: BirthCertificate { signature: Vec::new() },
            size: 0,
        }
    }

    /// The canonical commitment to the block body.
    pub fn merkle_root(&self) -> (r: crate::hash::Hash)
        ensures
            r@ == spec_merkle_root(*self),
    {
        if self.transparent_txs.len() == 0 {
            return crate::hash::Hash::zero();
        }
        let mut buf = block_body_tag();
        push_le64(&mut buf, self.transparent_txs.len() as u64);
        let ghost start = buf@;
        let mut i: usize = 0;
        proof {
            assert(self.transparent_txs@.take(0) =~= Seq::<TransparentTx>::empty());
            assert(buf@ =~= start + tx_hashes_bytes(self.transparent_txs@.take(0)));
        }
        while i < self.transparent_txs.len()
            invariant
                i <= self.transparent_txs@.len(),
                buf@ == start + tx_hashes_bytes(self.transparent_txs@.take(i as int)),
            decreases self.transparent_txs@.len() - i,
        {
            let h = self.transparent_txs[i].tx_hash();
            push_all(&mut buf, h.as_slice());
            proof {
                let t = self.transparent_txs@;
                assert(t.take(i + 1).drop_last() =~= t.take(i as int));
                assert(t.take(i + 1).last() == t[i as int]);
                assert(buf@ =~= start + tx_hashes_bytes(t.take(i + 1)));
            }
            i = i + 1;
        }
        proof {
            assert(self.transparent_txs@.take(self.transparent_txs@.len() as int) =~= self.transparent_txs@);
        }
        push_le64(&mut buf, 0);
        push_le64(&mut buf, 0);
        push_le64(&mut buf, 0);
        proof {
            assert(buf@ =~= spec_block_body_tag() + le64(self.transparent_txs@.len() as u64)
                + tx_hashes_bytes(self.transparent_txs@) + le64(0) + le64(0) + le64(0));
        }
        let v = blake3_xof_bytes(buf.as_slice(), 64);
        hash_from_vec(&v)
    }

    /// Total wire size of the transfers in the body (saturating).
    fn txs_size(&self) -> (r: usize)
        ensures
            r == sat_usize(txs_wire_size(self.transparent_txs@)),
    {
        let mut total: usize = 0;
        let mut i: usize = 0;
        while i < self.transparent_txs.len()
            invariant
                i <= self.transparent_txs@.len(),
                total == sat_usize(txs_wire_size(self.transparent_txs@.take(i as int))),
            decreases self.transparent_txs@.len() - i,
        {
            let t = &self.transparent_txs[i];
            let mut w: usize = 101;
            w = w.saturating_add(t.from.as_str().as_bytes().len());
            w = w.saturating_add(t.from_pubkey.len());
            w = w.saturating_add(t.to.as_str().as_bytes().len());
            w = w.saturating_add(t.hashlock_preimage.len());
            w = w.saturating_add(t.signature.len());
            if t.hashlock.is_some() {
                w = w.saturating_add(64);
            }
            proof {
                let tv = t@;
                assert(w == sat_usize(tx_wire_size(tv)));
                let s = self.transparent_txs@;
                assert(s.take(i + 1).drop_last() =~= s.take(i as int));
                assert(s.take(i + 1).last() == s[i as int]);
            }
            total = total.saturating_add(w);
            i = i + 1;
        }
        proof {
            assert(self.transparent_txs@.take(self.transparent_txs@.len() as int) =~= self.transparent_txs@);
        }
        total
    }

    /// Base size for the consensus cap: everything except the witness data.
    pub fn base_size(&self) -> (r: usize)
        ensures
            r == sat_usize(spec_base_size(*self)),
    {
        let mut n: usize = 316;
        n = n.saturating_add(times64(self.parents.len()));
        n = n.saturating_add(times64(self.interlinks.len()));
        n = n.saturating_add(self.txs_size());
        n = n.saturating_add(self.creator_pubkey.len());
        n
    }

    /// Whether the base size is within the consensus cap.
    pub fn verify_size(&self) -> (r: bool)
        ensures
            r == (spec_base_size(*self) <= MAX_BLOCK_SIZE),
    {
        self.base_size() <= MAX_BLOCK_SIZE
    }

    /// Seal the block with a birth certificate over its Settlement ID.
    pub fn issue_birth_certificate(&mut self, secret_key: &[u8]) -> (r: Result<(), String>)
        ensures
            secret_key@.len() != PQ_SECRET_KEY_SIZE ==> r is Err,
            r is Err ==> *final(self) == *old(self),
            r is Ok ==> *final(self) == (Block { birth_certificate: final(self).birth_certificate, ..*old(self) }),
            r is Ok ==> final(self).birth_certificate.signature@.len() == PQ_SIGNATURE_SIZE,
            r is Ok ==> forall|pk: Seq<u8>| #[trigger] mldsa87_pair(secret_key@, pk)
                ==> mldsa87_accepts(pk, spec_digest512(spec_birth_certificate_tag(), spec_settlement_id(*final(self))),
                final(self).birth_certificate.signature@),
            r is Ok && mldsa87_pair(secret_key@, old(self).creator_pubkey@)
                && old(self).miner@ == spec_address_hash(old(self).creator_pubkey@) ==> spec_issuance_ok(*final(self)),
    {
        let sid = self.settlement_id();
        match BirthCertificate::issue(&sid, secret_key) {
            Ok(c) => {
                self.birth_certificate = c;
                Ok(())
            },
            Err(e) => Err(e),
        }
    }

    /// Consensus check of the issuer: genesis is exempt; otherwise the
    /// creator key must be a full ML-DSA-87 key that hashes to `miner`, and the
    /// birth certificate must verify over the Settlement ID.
    pub fn verify_issuance(&self) -> (r: Result<(), String>)
        ensures
            r is Ok <==> spec_issuance_ok(*self),
            r matches Err(e) ==> e@ == if self.creator_pubkey@.len() != PQ_PUBLIC_KEY_SIZE {
                "Missing or malformed issuer public key"@
            } else if self.miner@ != spec_address_hash(self.creator_pubkey@) {
                "miner / reward address does not match issuer public key"@
            } else {
                "Invalid birth certificate"@
            },
    {
        if self.parents.len() == 0 {
            return Ok(());
        }
        if self.creator_pubkey.len() != PQ_PUBLIC_KEY_SIZE {
            return Err(String::from_str("Missing or malformed issuer public key"));
        }
        let expected = address_hash(self.creator_pubkey.as_slice());
        if !self.miner.equals(&expected) {
            return Err(String::from_str("miner / reward address does not match issuer public key"));
        }
        let sid = self.settlement_id();
        if !self.birth_certificate.verify(&sid, self.creator_pubkey.as_slice()) {
            return Err(String::from_str("Invalid birth certificate"));
        }
        Ok(())
    }
}

/// What [`Block::verify_issuance`] accepts.
pub open spec fn spec_issuance_ok(b: Block) -> bool {
    b.parents@.len() == 0 || {
        &&& b.creator_pubkey@.len() == PQ_PUBLIC_KEY_SIZE
        &&& b.miner@ == spec_address_hash(b.creator_pubkey@)
        &&& b.birth_certificate.signature@.len() == PQ_SIGNATURE_SIZE
        &&& mldsa87_accepts(b.creator_pubkey@, spec_digest512(spec_birth_certificate_tag(), spec_settlement_id(b)),
            b.birth_certificate.signature@)
    }
}

/// Full wire size of a block, witness data included (saturating).
pub fn calculate_block_size(block: &Block) -> (r: usize)
    ensures
        r == sat_usize(spec_block_size(*block)),
{
    let mut n = block.base_size();
    n = n.saturating_add(block.stark_proof.len());
    n = n.saturating_add(block.birth_certificate.signature.len());
    n
}

/// `b` is the genesis block, field by field.
pub open spec fn is_genesis_block(b: Block) -> bool {
    &&& b.height == 0
    &&& b.timestamp == GENESIS_TIMESTAMP_MS
    &&& b.parents@.len() == 0
    &&& b.interlinks@.len() == 0
    &&& b.transparent_txs@.len() == 0
    &&& b.merkle_root@ == Seq::new(64, |i: int| 0u8)
    &&& b.state_root@ == Seq::new(64, |i: int| 0u8)
    &&& b.miner@ == Seq::new(64, |i: int| 0u8)
    &&& b.creator_pubkey@.len() == 0
    &&& b.nonce == 0
    &&& b.difficulty == GENESIS_DIFFICULTY
    &&& b.version == VERSIONBITS_TOP_BITS
    &&& b.coinbase_entropy == 0
    &&& b.stark_proof@ == Seq::new(64, |i: int| 0u8)
    &&& b.birth_certificate.signature@.len() == 0
    &&& b.size == 0
}

/// The genesis block hashes to the genesis hash.
pub proof fn lemma_genesis_block_hash(g: Block)
    requires
        is_genesis_block(g),
    ensures
        spec_block_hash(g) == blake3_xof(spec_genesis_identity(), 64),
{
    assert(hashes_bytes(g.parents@) =~= Seq::<u8>::empty());
    assert(hashes_bytes(g.interlinks@) =~= Seq::<u8>::empty());
    assert(spec_identity(g) =~= spec_genesis_identity());
}

/// The one deterministic genesis block.
pub fn genesis_block() -> (r: Block)
    ensures
        is_genesis_block(r),
        r.height == 0,
        r.timestamp == GENESIS_TIMESTAMP_MS,
        r.parents@.len() == 0,
        r.interlinks@.len() == 0,
        r.transparent_txs@.len() == 0,
        r.merkle_root@ == Seq::new(64, |i: int| 0u8),
        r.state_root@ == Seq::new(64, |i: int| 0u8),
        r.miner@ == Seq::new(64, |i: int| 0u8),
        r.creator_pubkey@.len() == 0,
        r.nonce == 0,
        r.difficulty == GENESIS_DIFFICULTY,
        r.version == VERSIONBITS_TOP_BITS,
        r.coinbase_entropy == 0,
        r.stark_proof@ == Seq::new(64, |i: int| 0u8),
        r.birth_certificate.signature@.len() == 0,
        r.size == 0,
{
    let mut proof_bytes: Vec<u8> = Vec::new();
    let mut i: usize = 0;
    while i < 64
        invariant
            i <= 64,
            proof_bytes@ == Seq::new(i as nat, |j: int| 0u8),
        decreases 64 - i,
    {
        proof_bytes.push(0u8);
        proof {
            assert(proof_bytes@ =~= Seq::new((i + 1) as nat, |j: int| 0u8));
        }
        i = i + 1;
    }
    Block {
        height: 0,
        timestamp: GENESIS_TIMESTAMP_MS,
        parents: Vec::new(),
        interlinks: Vec::new(),
        transparent_txs: Vec::new(),
        merkle_root: crate::hash::Hash::zero(),
        state_root: crate::hash::Hash::zero(),
        miner: crate::hash::Hash::zero(),
        creator_pubkey: Vec::new(),
        nonce: 0,
        difficulty: GENESIS_DIFFICULTY,
        version: default_block_version(),
        coinbase_entropy: 0,
        stark_proof: proof_bytes,
        birth_certificate: BirthCertificate { signature: Vec::new() },
        size: 0,
    }
}

/// The identity of the genesis block.
pub open spec fn spec_genesis_identity() -> Seq<u8> {
    spec_genesis_domain() + le64(0) + le64(GENESIS_TIMESTAMP_MS) + le64(0) + Seq::new(64, |i: int| 0u8)
        + Seq::new(64, |i: int| 0u8) + Seq::new(64, |i: int| 0u8) + le64(0) + le64(0) + le64(GENESIS_DIFFICULTY)
        + le32(VERSIONBITS_TOP_BITS)
}

/// The fixed genesis hash, the anchor every pruning proof chains back to.
pub fn genesis_hash() -> (r: crate::hash::Hash)
    ensures
        r@ == blake3_xof(spec_genesis_identity(), 64),
{
    let g = genesis_block();
    proof {
        assert(hashes_bytes(g.parents@) =~= Seq::<u8>::empty());
        assert(hashes_bytes(g.interlinks@) =~= Seq::<u8>::empty());
        assert(spec_identity(g) =~= spec_genesis_identity());
    }
    g.hash()
}

/// Network identifier for wallets: Blake3-512 (`chain-hash` domain) of the
/// genesis domain, the chain id (little-endian) and the genesis hash.
pub fn chain_hash() -> (r: crate::hash::Hash)
    ensures
        r@ == spec_digest512(spec_chain_hash_tag(), spec_genesis_domain() + le64(CHAIN_ID)
            + blake3_xof(spec_genesis_identity(), 64)),
{
    let mut buf = genesis_domain();
    push_le64(&mut buf, CHAIN_ID);
    let g = genesis_hash();
    push_all(&mut buf, g.as_slice());
    let tag = chain_hash_tag();
    digest512_hash(tag.as_slice(), buf.as_slice())
}

} // verus!
