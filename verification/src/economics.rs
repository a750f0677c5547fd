//! Economic-entity view of blocks and transfers: provenance, custody,
//! lineage and finality derived read-only from chain data, with a
//! hash-chained audit trail of the verification events.
use vstd::prelude::*;
use vstd::string::StringExecFns;
use vstd::utf8::encode_utf8;
use crate::abs_sig::{decimal_digits, u128_to_decimal, u64_to_decimal};
use crate::bytes::{ascii_chars, hex_encode, hex_encode_spec, push_all};
use crate::hash::{address_hash, hash512, spec_address_hash, spec_digest512, spec_raw_tag};
use crate::block::{spec_issuance_ok, spec_settlement_id, Block};
use crate::chain::{balance_of, fees_of, find_account, find_seen, seen_of, spec_estimate_tiers, spec_min_relay_fee_now, spec_tip_score, typical_floor, ChainState, FeeEstimate};
use crate::genesis::MIN_TX_FEE;
use crate::genesis::{FINALITY_DEPTH, FOUNDER, MAX_MEMPOOL_SIZE};
use crate::tx::{spec_tx_hash, TransparentTx};
use crate::ghostdag::{index_of, DagStore};

verus! {

/// A role a party plays with respect to a block.
#[derive(Clone, Debug)]
pub enum Custodian {
    /// The miner who found the block and issued its birth certificate.
    PrimaryIssuer { address: Option<String> },
    /// Every full node re-derives the coloring and re-verifies the
    /// certificate of every block it accepts.
    Validator { description: String },
    /// A node keeping full history to serve cold-start sync.
    ArchiveCustodian { is_local_node_archival: bool },
    /// Recipient of record of the block's issuance.
    BeneficialOwner { address: Option<String>, current_balance: String },
}

/// Origin document of a block.
#[derive(Clone, Debug)]
pub struct ProvenanceRecord {
    pub settlement_id: String,
    pub instrument_type: String,
    pub issuing_authority: Option<String>,
    pub jurisdiction: String,
    pub issuance_signature: String,
    pub issuance_verified: bool,
    pub issued_at_ms: u64,
}

/// Every economic agent that has handled the block.
#[derive(Clone, Debug)]
pub struct CustodyChain {
    pub primary_issuer: Custodian,
    pub validator: Custodian,
    pub archive_custodian: Custodian,
    pub beneficial_owner: Custodian,
}

/// Parents, children ("offspring") and parallel tips ("siblings").
#[derive(Clone, Debug)]
pub struct LineageGraph {
    pub ancestors: Vec<String>,
    pub selected_parent: Option<String>,
    pub economic_offspring: Vec<String>,
    pub economic_siblings: Vec<String>,
    pub blue_mergeset_size: Option<usize>,
    pub red_mergeset_size: Option<usize>,
}

/// Settlement state of a block.
#[derive(Clone, Debug)]
pub struct EconomicFinality {
    pub blue_score: Option<u64>,
    pub is_on_selected_chain: bool,
    pub is_economically_final: bool,
    pub confirmations: Option<u64>,
    pub finality_depth: u64,
}

/// One verification event, chained to the previous one by hash.
#[derive(Clone, Debug)]
pub struct AuditEntry {
    pub sequence: u32,
    pub event: String,
    pub detail: String,
    pub prev_entry_hash: String,
    pub entry_hash: String,
}

/// Mathematical form of an audit entry.
pub struct EntryView {
    pub sequence: u32,
    pub event: Seq<char>,
    pub detail: Seq<char>,
    pub prev_entry_hash: Seq<char>,
    pub entry_hash: Seq<char>,
}

impl View for AuditEntry {
    type V = EntryView;

    open spec fn view(&self) -> EntryView {
        EntryView {
            sequence: self.sequence,
            event: self.event@,
            detail: self.detail@,
            prev_entry_hash: self.prev_entry_hash@,
            entry_hash: self.entry_hash@,
        }
    }
}

/// The hash-chained record of the verification events for one block,
/// recomputed from consensus data on every request.
#[derive(Clone, Debug)]
pub struct AuditTrail {
    pub entries: Vec<AuditEntry>,
    /// Hash of the final entry.
    pub trail_hash: String,
}

/// Big-endian bytes of a `u32`.
pub open spec fn be32(x: u32) -> Seq<u8> {
    seq![(x / 0x100_0000) as u8, ((x / 0x1_0000) % 256) as u8, ((x / 256) % 256) as u8, (x % 256) as u8]
}

/// Lowercase hex of the 64 zero bytes.
pub open spec fn zero_hex() -> Seq<char> {
    ascii_chars(hex_encode_spec(Seq::new(64, |i: int| 0u8)))
}

/// Hex Blake3-512 of an entry: previous hash, sequence, event and detail.
pub open spec fn entry_digest(prev: Seq<char>, sequence: u32, event: Seq<char>, detail: Seq<char>) -> Seq<char> {
    ascii_chars(hex_encode_spec(spec_digest512(
        spec_raw_tag(),
        encode_utf8(prev) + be32(sequence) + encode_utf8(event) + encode_utf8(detail),
    )))
}

/// The entries are numbered in order, each chains to the previous entry's
/// hash (the first to the zero hash) and carries the hash of its content.
pub open spec fn is_chained(e: Seq<EntryView>) -> bool {
    forall|i: int| 0 <= i < e.len() ==> {
        &&& (#[trigger] e[i]).sequence == i
        &&& e[i].prev_entry_hash == if i == 0 { zero_hex() } else { e[i - 1].entry_hash }
        &&& e[i].entry_hash == entry_digest(e[i].prev_entry_hash, e[i].sequence, e[i].event, e[i].detail)
    }
}

proof fn lemma_chained_prefix_eq(e1: Seq<EntryView>, e2: Seq<EntryView>, i: int)
    requires
        is_chained(e1),
        is_chained(e2),
        e1.len() == e2.len(),
        items_of(e1) == items_of(e2),
        0 <= i < e1.len(),
    ensures
        e1[i] == e2[i],
    decreases i,
{
    assert(items_of(e1)[i] == items_of(e2)[i]);
    if i > 0 {
        lemma_chained_prefix_eq(e1, e2, i - 1);
    }
}

/// An audit trail is determined by its events: two hash-chained trails
/// with the same `(event, detail)` pairs are identical, hashes included.
pub proof fn law_audit_trail_deterministic(e1: Seq<EntryView>, e2: Seq<EntryView>)
    requires
        is_chained(e1),
        is_chained(e2),
        items_of(e1) == items_of(e2),
    ensures
        e1 == e2,
{
    assert(items_of(e1).len() == e1.len());
    assert(items_of(e2).len() == e2.len());
    assert forall|i: int| 0 <= i < e1.len() implies e1[i] == e2[i] by {
        lemma_chained_prefix_eq(e1, e2, i);
    }
    assert(e1 =~= e2);
}

/// Views of a list of entries.
pub open spec fn entry_views(e: Seq<AuditEntry>) -> Seq<EntryView> {
    e.map_values(|x: AuditEntry| x@)
}

/// The string `a` followed by `b`.
pub(crate) fn concat(a: &str, b: &str) -> (r: String)
    ensures
        r@ == a@ + b@,
{
    let mut s = String::from_str(a);
    s.append(b);
    s
}

/// Lowercase hex of the zero hash.
fn zero_hash_hex() -> (r: String)
    ensures
        r@ == zero_hex(),
{
    let z = crate::hash::Hash::zero();
    hex_encode(z.0.as_slice())
}


/// `true` or `false`.
pub open spec fn bool_text(b: bool) -> Seq<char> {
    if b { "true"@ } else { "false"@ }
}

/// The decimal digits of a present number, or `n/a`.
pub open spec fn opt_text(x: Option<u64>) -> Seq<char> {
    match x {
        Some(v) => decimal_digits(v as nat),
        None => "n/a"@,
    }
}

/// The `(event, detail)` pairs of the audit trail of a block with the given
/// difficulty, provenance, lineage and finality.
pub open spec fn trail_items(difficulty: u64, is_genesis: bool, p: ProvenanceRecord, l: LineageGraph, f: EconomicFinality) -> Seq<(Seq<char>, Seq<char>)> {
    let received = ("block_received"@, "settlement_id="@ + p.settlement_id@);
    let pow = if is_genesis {
        ("proof_of_work_exempt"@, "genesis instrument is defined into existence, not mined"@)
    } else {
        ("proof_of_work_verified"@, "difficulty="@ + decimal_digits(difficulty as nat) + " target_met=true"@)
    };
    let cert = ("birth_certificate_verified"@, "scheme=ML-DSA-87 verified="@ + bool_text(p.issuance_verified) + " issuer="@
        + match p.issuing_authority {
        Some(a) => a@,
        None => "none (genesis)"@,
    });
    let coloring = ("ghostdag_coloring_computed"@, "blue_score="@ + opt_text(f.blue_score)
        + " blue_mergeset="@ + decimal_digits(match l.blue_mergeset_size { Some(n) => n as nat, None => 0 })
        + " red_mergeset="@ + decimal_digits(match l.red_mergeset_size { Some(n) => n as nat, None => 0 })
        + " ancestors="@ + decimal_digits(l.ancestors@.len()) + " siblings_preserved="@ + decimal_digits(l.economic_siblings@.len()));
    let membership = ("chain_membership_evaluated"@, "is_on_selected_chain="@ + bool_text(f.is_on_selected_chain)
        + " confirmations="@ + opt_text(f.confirmations));
    let base = seq![received, pow, cert, coloring, membership];
    if f.is_economically_final {
        base.push(("economic_finality_reached"@, "finality_depth="@ + decimal_digits(f.finality_depth as nat)))
    } else {
        base
    }
}

/// The `(event, detail)` pairs of a list of entries.
pub open spec fn items_of(e: Seq<EntryView>) -> Seq<(Seq<char>, Seq<char>)> {
    e.map_values(|x: EntryView| (x.event, x.detail))
}

fn bool_string(b: bool) -> (r: String)
    ensures
        r@ == bool_text(b),
{
    if b { String::from_str("true") } else { String::from_str("false") }
}

fn opt_string(x: Option<u64>) -> (r: String)
    ensures
        r@ == opt_text(x),
{
    match x {
        Some(v) => u64_to_decimal(v),
        None => String::from_str("n/a"),
    }
}

/// `s` with `t` appended.
fn append(s: String, t: &str) -> (r: String)
    ensures
        r@ == s@ + t@,
{
    let mut s = s;
    s.append(t);
    s
}

/// Lowercase hex of bytes, as a string.
pub open spec fn hex_of(b: Seq<u8>) -> Seq<char> {
    ascii_chars(hex_encode_spec(b))
}

/// The account string of a 512-bit address digest: `hsn:` and its hex.
pub open spec fn hsn_address(h: Seq<u8>) -> Seq<char> {
    "hsn:"@ + hex_of(h)
}

/// The issuer of a block: the address of its creator key, `None` without one.
pub open spec fn spec_issuer(b: Block) -> Option<Seq<char>> {
    if b.creator_pubkey@.len() == 0 { None } else { Some(hsn_address(spec_address_hash(b.creator_pubkey@))) }
}

/// Views of optional strings.
pub open spec fn opt_view(x: Option<String>) -> Option<Seq<char>> {
    match x {
        Some(s) => Some(s@),
        None => None,
    }
}

/// Views of a list of strings.
pub open spec fn strs(v: Seq<String>) -> Seq<Seq<char>> {
    v.map_values(|x: String| x@)
}

/// Hex of each digest.
pub open spec fn hexes(v: Seq<crate::hash::Hash>) -> Seq<Seq<char>> {
    v.map_values(|x: crate::hash::Hash| hex_of(x@))
}

/// `h` is among the digests.
pub open spec fn has_digest(v: Seq<crate::hash::Hash>, h: Seq<u8>) -> bool {
    exists|k: int| 0 <= k < v.len() && (#[trigger] v[k])@ == h
}

/// Hex hashes of the stored blocks below position `n` that list `h` as a parent.
pub open spec fn children_upto(s: DagStore, blocks: Seq<Block>, h: Seq<u8>, n: int) -> Seq<Seq<char>>
    decreases n,
{
    if n <= 0 {
        Seq::empty()
    } else {
        let prev = children_upto(s, blocks, h, n - 1);
        if has_digest(blocks[n - 1].parents@, h) { prev.push(hex_of(s.hash_of(n - 1))) } else { prev }
    }
}

/// The two blocks share a parent.
pub open spec fn share_parent(a: Block, b: Block) -> bool {
    exists|k: int| 0 <= k < a.parents@.len() && has_digest(b.parents@, (#[trigger] a.parents@[k])@)
}

/// Hex hashes of the first `n` tips other than `h` whose stored block shares
/// a parent with `b`.
pub open spec fn siblings_upto(s: DagStore, blocks: Seq<Block>, tips: Seq<crate::hash::Hash>, h: Seq<u8>, b: Block, n: int) -> Seq<Seq<char>>
    decreases n,
{
    if n <= 0 {
        Seq::empty()
    } else {
        let prev = siblings_upto(s, blocks, tips, h, b, n - 1);
        let t = tips[n - 1]@;
        if t != h && s.has(t) && share_parent(blocks[s.idx_of(t)], b) { prev.push(hex_of(t)) } else { prev }
    }
}

/// Position of `h` on the selected chain.
pub open spec fn chain_position(c: Seq<crate::hash::Hash>, h: Seq<u8>) -> Option<int> {
    if has_digest(c, h) {
        Some(choose|k: int| 0 <= k < c.len() && c[k]@ == h && forall|j: int| 0 <= j < k ==> c[j]@ != h)
    } else {
        None
    }
}

/// Hex of a digest.
pub(crate) fn hash_hex(h: &crate::hash::Hash) -> (r: String)
    ensures
        r@ == hex_of(h@),
{
    hex_encode(h.0.as_slice())
}

/// Hex of each digest.
fn hash_hexes(v: &Vec<crate::hash::Hash>) -> (r: Vec<String>)
    ensures
        strs(r@) == hexes(v@),
{
    let mut out: Vec<String> = Vec::new();
    let mut k: usize = 0;
    while k < v.len()
        invariant
            k <= v@.len(),
            strs(out@) == hexes(v@.take(k as int)),
        decreases v@.len() - k,
    {
        let ghost o0 = out@;
        out.push(hash_hex(&v[k]));
        proof {
            assert(strs(out@) =~= strs(o0).push(hex_of(v@[k as int]@)));
            assert(hexes(v@.take(k + 1)) =~= hexes(v@.take(k as int)).push(hex_of(v@[k as int]@)));
        }
        k = k + 1;
    }
    proof {
        assert(v@.take(v@.len() as int) =~= v@);
    }
    out
}

/// Whether `h` is among the digests.
fn contains_digest(v: &Vec<crate::hash::Hash>, h: &crate::hash::Hash) -> (r: bool)
    ensures
        r == has_digest(v@, h@),
{
    let mut k: usize = 0;
    while k < v.len()
        invariant
            k <= v@.len(),
            forall|j: int| 0 <= j < k ==> (#[trigger] v@[j])@ != h@,
        decreases v@.len() - k,
    {
        if v[k].equals(h) {
            return true;
        }
        k = k + 1;
    }
    false
}

/// Whether two parent lists share an entry.
fn shares_parent(a: &Block, b: &Block) -> (r: bool)
    ensures
        r == share_parent(*a, *b),
{
    let mut k: usize = 0;
    while k < a.parents.len()
        invariant
            k <= a.parents@.len(),
            forall|j: int| 0 <= j < k ==> !has_digest(b.parents@, (#[trigger] a.parents@[j])@),
        decreases a.parents@.len() - k,
    {
        if contains_digest(&b.parents, &a.parents[k]) {
            return true;
        }
        k = k + 1;
    }
    false
}

/// The issuer address of a block.
fn issuer_address(b: &Block) -> (r: Option<String>)
    ensures
        opt_view(r) == spec_issuer(*b),
{
    if b.creator_pubkey.len() == 0 {
        return None;
    }
    let h = address_hash(b.creator_pubkey.as_slice());
    Some(concat("hsn:", hash_hex(&h).as_str()))
}

impl AuditTrail {
    /// The audit trail of a block: received, proof of work (or the genesis
    /// exemption), birth certificate, coloring, chain membership and, once
    /// reached, economic finality.
    pub fn build(difficulty: u64, is_genesis: bool, provenance: &ProvenanceRecord, lineage: &LineageGraph, finality: &EconomicFinality) -> (r: AuditTrail)
        ensures
            is_chained(entry_views(r.entries@)),
            items_of(entry_views(r.entries@)) == trail_items(difficulty, is_genesis, *provenance, *lineage, *finality),
            r.entries@.len() > 0,
            r.trail_hash@ == r.entries@.last().entry_hash@,
    {
        let mut entries: Vec<AuditEntry> = Vec::new();
        let ghost items = trail_items(difficulty, is_genesis, *provenance, *lineage, *finality);
        proof {
            assert(entry_views(entries@) =~= Seq::<EntryView>::empty());
        }
        let d0 = concat("settlement_id=", provenance.settlement_id.as_str());
        Self::push(&mut entries, "block_received", d0);
        if is_genesis {
            Self::push(&mut entries, "proof_of_work_exempt", String::from_str("genesis instrument is defined into existence, not mined"));
        } else {
            let d = append(concat("difficulty=", u64_to_decimal(difficulty).as_str()), " target_met=true");
            Self::push(&mut entries, "proof_of_work_verified", d);
        }
        let issuer = match &provenance.issuing_authority {
            Some(a) => String::from_str(a.as_str()),
            None => String::from_str("none (genesis)"),
        };
        let d2 = append(append(append(String::from_str("scheme=ML-DSA-87 verified="), bool_string(provenance.issuance_verified).as_str()), " issuer="), issuer.as_str());
        Self::push(&mut entries, "birth_certificate_verified", d2);
        let blue_n: usize = match lineage.blue_mergeset_size { Some(n) => n, None => 0 };
        let red_n: usize = match lineage.red_mergeset_size { Some(n) => n, None => 0 };
        let mut d3 = concat("blue_score=", opt_string(finality.blue_score).as_str());
        d3 = append(d3, " blue_mergeset=");
        d3 = append(d3, u64_to_decimal(blue_n as u64).as_str());
        d3 = append(d3, " red_mergeset=");
        d3 = append(d3, u64_to_decimal(red_n as u64).as_str());
        d3 = append(d3, " ancestors=");
        d3 = append(d3, u64_to_decimal(lineage.ancestors.len() as u64).as_str());
        d3 = append(d3, " siblings_preserved=");
        d3 = append(d3, u64_to_decimal(lineage.economic_siblings.len() as u64).as_str());
        Self::push(&mut entries, "ghostdag_coloring_computed", d3);
        let mut d4 = concat("is_on_selected_chain=", bool_string(finality.is_on_selected_chain).as_str());
        d4 = append(d4, " confirmations=");
        d4 = append(d4, opt_string(finality.confirmations).as_str());
        Self::push(&mut entries, "chain_membership_evaluated", d4);
        if finality.is_economically_final {
            let d5 = concat("finality_depth=", u64_to_decimal(finality.finality_depth).as_str());
            Self::push(&mut entries, "economic_finality_reached", d5);
        }
        proof {
            let v = entry_views(entries@);
            assert(items_of(v) =~= items);
        }
        let n = entries.len();
        let trail_hash = String::from_str(entries[n - 1].entry_hash.as_str());
        AuditTrail { entries, trail_hash }
    }

    /// Append an event, chained to the last entry.
    fn push(entries: &mut Vec<AuditEntry>, event: &str, detail: String)
        requires
            is_chained(entry_views(old(entries)@)),
            old(entries)@.len() < u32::MAX,
        ensures
            is_chained(entry_views(final(entries)@)),
            final(entries)@.len() == old(entries)@.len() + 1,
            forall|i: int| 0 <= i < old(entries)@.len() ==> #[trigger] final(entries)@[i] == old(entries)@[i],
            final(entries)@.last().event@ == event@,
            final(entries)@.last().detail@ == detail@,
    {
        let ghost e0 = entries@;
        let sequence = entries.len() as u32;
        let prev_entry_hash = if entries.len() == 0 {
            zero_hash_hex()
        } else {
            let n = entries.len();
            String::from_str(entries[n - 1].entry_hash.as_str())
        };
        let mut buf: Vec<u8> = Vec::new();
        push_all(&mut buf, prev_entry_hash.as_str().as_bytes());
        buf.push((sequence / 0x100_0000) as u8);
        buf.push(((sequence / 0x1_0000) % 256) as u8);
        buf.push(((sequence / 256) % 256) as u8);
        buf.push((sequence % 256) as u8);
        push_all(&mut buf, event.as_bytes());
        push_all(&mut buf, detail.as_str().as_bytes());
        proof {
            assert(buf@ =~= encode_utf8(prev_entry_hash@) + be32(sequence) + encode_utf8(event@) + encode_utf8(detail@));
        }
        let h = hash512(buf.as_slice());
        let entry_hash = hex_encode(h.0.as_slice());
        entries.push(AuditEntry { sequence, event: String::from_str(event), detail, prev_entry_hash, entry_hash });
        proof {
            let v = entry_views(entries@);
            assert forall|i: int| 0 <= i < v.len() implies {
                &&& (#[trigger] v[i]).sequence == i
                &&& v[i].prev_entry_hash == if i == 0 { zero_hex() } else { v[i - 1].entry_hash }
                &&& v[i].entry_hash == entry_digest(v[i].prev_entry_hash, v[i].sequence, v[i].event, v[i].detail)
            } by {
                if i < e0.len() {
                    assert(v[i] == entry_views(e0)[i]);
                    if i > 0 {
                        assert(v[i - 1] == entry_views(e0)[i - 1]);
                    }
                } else if i > 0 {
                    assert(v[i - 1] == entry_views(e0)[i - 1]);
                }
            }
        }
    }
}

/// The fee market as a settlement-priority spread: protocol floor, current
/// relay floor, fee tiers, their spread and mempool package figures.
#[derive(Clone, Debug)]
pub struct VerificationEconomics {
    pub protocol_min_fee: String,
    pub current_min_relay_fee: String,
    pub low_fee_estimate: String,
    pub medium_fee_estimate: String,
    pub high_fee_estimate: String,
    pub verification_spread: String,
    pub mempool_txs: usize,
    pub package_count: usize,
    pub best_package_fee: String,
}

/// The fee-market figures of the state from its fee estimate `est`.
#[verifier::opaque]
pub open spec fn economics_of(s: ChainState, est: FeeEstimate, v: VerificationEconomics) -> bool {
    &&& v.protocol_min_fee@ == decimal_digits(MIN_TX_FEE as nat)
    &&& v.current_min_relay_fee@ == decimal_digits(spec_min_relay_fee_now(fees_of(s.transparent_mempool@), typical_floor()) as nat)
    &&& v.low_fee_estimate@ == decimal_digits(est.low as nat)
    &&& v.medium_fee_estimate@ == decimal_digits(est.medium as nat)
    &&& v.high_fee_estimate@ == decimal_digits(est.high as nat)
    &&& v.verification_spread@ == decimal_digits((est.high - est.low) as nat)
    &&& v.mempool_txs == est.mempool_txs
    &&& v.package_count == est.package_count
    &&& v.best_package_fee@ == decimal_digits(est.best_package_fee as nat)
}

/// The state meets the fee estimator's bounds.
pub open spec fn estimable(s: ChainState) -> bool {
    &&& s.store.wf()
    &&& s.transparent_mempool@.len() * 100 <= usize::MAX
}

impl VerificationEconomics {
    /// The fee-market figures of the state now.
    pub fn snapshot(state: &ChainState) -> (r: VerificationEconomics)
        requires
            estimable(*state),
        ensures
            exists|est: FeeEstimate| #[trigger] spec_estimate_tiers(*state, est) && est.high >= est.low && economics_of(*state, est, r),
    {
        let est = state.estimate_fee();
        let r = VerificationEconomics {
            protocol_min_fee: u128_to_decimal(MIN_TX_FEE),
            current_min_relay_fee: u128_to_decimal(state.current_min_relay_fee()),
            low_fee_estimate: u128_to_decimal(est.low),
            medium_fee_estimate: u128_to_decimal(est.medium),
            high_fee_estimate: u128_to_decimal(est.high),
            verification_spread: u128_to_decimal(est.high - est.low),
            mempool_txs: est.mempool_txs,
            package_count: est.package_count,
            best_package_fee: u128_to_decimal(est.best_package_fee),
        };
        proof {
            reveal(economics_of);
            assert(spec_estimate_tiers(*state, est) && est.high >= est.low && economics_of(*state, est, r));
        }
        r
    }
}

/// A block as an economic instrument: header, transfers, provenance,
/// custody, lineage, finality, its audit trail and the fee-market context.
#[derive(Clone, Debug)]
pub struct EconomicEntity {
    pub header_hash: String,
    pub height: Option<u64>,
    pub transaction_count: usize,
    /// Proof-of-work difficulty of the block (the cost-basis input).
    pub difficulty: u64,
    pub provenance: ProvenanceRecord,
    pub custody: CustodyChain,
    pub lineage: LineageGraph,
    pub finality: EconomicFinality,
    pub audit_trail: AuditTrail,
    pub verification_economics: VerificationEconomics,
}

/// The origin record of block `b` on a chain with id `chain_id`.
#[verifier::opaque]
pub open spec fn provenance_of(b: Block, chain_id: u64, p: ProvenanceRecord) -> bool {
    &&& p.settlement_id@ == hex_of(spec_settlement_id(b))
    &&& p.settlement_id@.len() == 128
    &&& vstd::utf8::is_ascii_chars(p.settlement_id@)
    &&& p.instrument_type@ == if b.parents@.len() == 0 { "Genesis Instrument"@ } else { "PoW Block"@ }
    &&& opt_view(p.issuing_authority) == spec_issuer(b)
    &&& p.jurisdiction@ == "Hassan Protocol, chain_id "@ + decimal_digits(chain_id as nat)
    &&& p.issuance_signature@ == hex_of(b.birth_certificate.signature@)
    &&& p.issuance_verified == spec_issuance_ok(b)
    &&& p.issued_at_ms == b.timestamp
}

/// The custody chain of block `b` in state `s`: the miner as issuer and
/// owner of record (with its balance), the validator role and whether this
/// node is archival.
#[verifier::opaque]
pub open spec fn custody_of(s: ChainState, b: Block, c: CustodyChain) -> bool {
    let miner = hsn_address(b.miner@);
    &&& (c.primary_issuer matches Custodian::PrimaryIssuer { address: Some(a) } && a@ == miner)
    &&& c.validator is Validator
    &&& (c.archive_custodian matches Custodian::ArchiveCustodian { is_local_node_archival: x } && x == s.archival)
    &&& (c.beneficial_owner matches Custodian::BeneficialOwner { address: Some(a), current_balance: bal }
        && a@ == miner && bal@ == decimal_digits(balance_of(s.accounts@, miner) as nat))
}

/// The lineage of the block at position `i`.
#[verifier::opaque]
pub open spec fn lineage_of(s: ChainState, i: int, l: LineageGraph) -> bool {
    let b = s.blocks@[i];
    let node = s.store.nodes@[i];
    let h = s.store.hash_of(i);
    &&& strs(l.ancestors@) == hexes(b.parents@)
    &&& opt_view(l.selected_parent) == match node.selected_parent {
        Some(j) => Some(hex_of(s.store.hash_of(j as int))),
        None => None,
    }
    &&& strs(l.economic_offspring@) == children_upto(s.store, s.blocks@, h, s.store.len())
    &&& strs(l.economic_siblings@) == siblings_upto(s.store, s.blocks@, s.tips@, h, b, s.tips@.len() as int)
    &&& l.blue_mergeset_size == Some(node.blues@.len() as usize)
    &&& l.red_mergeset_size == Some(node.reds@.len() as usize)
}

/// The settlement state of the block at position `i`.
#[verifier::opaque]
pub open spec fn finality_of(s: ChainState, i: int, f: EconomicFinality) -> bool {
    let score = s.store.nodes@[i].blue_score;
    let tip = spec_tip_score(s.store, s.tips@);
    let conf: u64 = if tip >= score { (tip - score) as u64 } else { 0 };
    let on_chain = has_digest(s.main_chain@, s.store.hash_of(i));
    &&& f.blue_score == Some(score)
    &&& f.is_on_selected_chain == on_chain
    &&& f.confirmations == Some(conf)
    &&& f.is_economically_final == (on_chain && conf >= FINALITY_DEPTH)
    &&& f.finality_depth == FINALITY_DEPTH
}

impl ChainState {
    fn lineage_at(&self, i: usize) -> (r: LineageGraph)
        requires
            self.wf(),
            i < self.store.len(),
        ensures
            lineage_of(*self, i as int, r),
    {
        reveal(lineage_of);
        let b = &self.blocks[i];
        let node = &self.store.nodes[i];
        let h = node.hash;
        let mut children: Vec<String> = Vec::new();
        let mut k: usize = 0;
        while k < self.blocks.len()
            invariant
                self.wf(),
                k <= self.blocks@.len(),
                i < self.store.len(),
                h@ == self.store.hash_of(i as int),
                strs(children@) == children_upto(self.store, self.blocks@, h@, k as int),
            decreases self.blocks@.len() - k,
        {
            if contains_digest(&self.blocks[k].parents, &h) {
                let ghost c0 = children@;
                children.push(hash_hex(&self.store.nodes[k].hash));
                proof {
                    assert(strs(children@) =~= strs(c0).push(hex_of(self.store.hash_of(k as int))));
                }
            }
            k = k + 1;
        }
        let mut siblings: Vec<String> = Vec::new();
        let mut t: usize = 0;
        while t < self.tips.len()
            invariant
                self.wf(),
                t <= self.tips@.len(),
                i < self.store.len(),
                b == &self.blocks@[i as int],
                h@ == self.store.hash_of(i as int),
                strs(siblings@) == siblings_upto(self.store, self.blocks@, self.tips@, h@, *b, t as int),
            decreases self.tips@.len() - t,
        {
            let tip = &self.tips[t];
            if !tip.equals(&h) {
                match index_of(&self.store, tip) {
                    Some(j) => {
                        proof {
                            self.store.lemma_idx_of_unique(tip@, j as int);
                        }
                        if shares_parent(&self.blocks[j], b) {
                            let ghost s0 = siblings@;
                            siblings.push(hash_hex(tip));
                            proof {
                                assert(strs(siblings@) =~= strs(s0).push(hex_of(tip@)));
                            }
                        }
                    },
                    None => {},
                }
            }
            t = t + 1;
        }
        let sp = match node.selected_parent {
            Some(j) => Some(hash_hex(&self.store.nodes[j].hash)),
            None => None,
        };
        LineageGraph {
            ancestors: hash_hexes(&b.parents),
            selected_parent: sp,
            economic_offspring: children,
            economic_siblings: siblings,
            blue_mergeset_size: Some(node.blues.len()),
            red_mergeset_size: Some(node.reds.len()),
        }
    }

    fn finality_at(&self, i: usize) -> (r: EconomicFinality)
        requires
            self.wf(),
            i < self.store.len(),
        ensures
            finality_of(*self, i as int, r),
    {
        reveal(finality_of);
        let score = self.store.nodes[i].blue_score;
        let tip = self.selected_tip_blue_score();
        let conf = tip.saturating_sub(score);
        let on_chain = contains_digest(&self.main_chain, &self.store.nodes[i].hash);
        EconomicFinality {
            blue_score: Some(score),
            is_on_selected_chain: on_chain,
            is_economically_final: on_chain && conf >= FINALITY_DEPTH,
            confirmations: Some(conf),
            finality_depth: FINALITY_DEPTH,
        }
    }

    fn provenance_at(&self, i: usize) -> (r: ProvenanceRecord)
        requires
            self.wf(),
            i < self.store.len(),
        ensures
            provenance_of(self.blocks@[i as int], self.chain_id, r),
    {
        reveal(provenance_of);
        let b = &self.blocks[i];
        let kind = if b.parents.len() == 0 { String::from_str("Genesis Instrument") } else { String::from_str("PoW Block") };
        let sid = b.settlement_id();
        let sid_hex = sid.to_hex();
        proof {
            crate::bytes::lemma_hex_encode_ascii(sid.0@);
            let hx = hex_encode_spec(sid.0@);
            assert forall|k: int| 0 <= k < sid_hex@.len() implies '\0' <= sid_hex@[k] && sid_hex@[k] <= '\u{7f}' by {
                assert(sid_hex@[k] == hx[k] as char);
                assert(hx[k] < 128);
            }
        }
        ProvenanceRecord {
            settlement_id: sid_hex,
            instrument_type: kind,
            issuing_authority: issuer_address(b),
            jurisdiction: concat("Hassan Protocol, chain_id ", u64_to_decimal(self.chain_id).as_str()),
            issuance_signature: hex_encode(b.birth_certificate.signature.as_slice()),
            issuance_verified: b.verify_issuance().is_ok(),
            issued_at_ms: b.timestamp,
        }
    }

    fn custody_at(&self, i: usize) -> (r: CustodyChain)
        requires
            self.wf(),
            i < self.store.len(),
        ensures
            custody_of(*self, self.blocks@[i as int], r),
    {
        reveal(custody_of);
        let b = &self.blocks[i];
        let miner = concat("hsn:", hash_hex(&b.miner).as_str());
        let balance: u128 = match find_account(&self.accounts, &miner) {
            Some(a) => a.balance,
            None => 0,
        };
        CustodyChain {
            primary_issuer: Custodian::PrimaryIssuer { address: Some(String::from_str(miner.as_str())) },
            validator: Custodian::Validator {
                description: String::from_str("Every full node re-verifies this block's Birth Certificate and GHOSTDAG coloring before accepting it."),
            },
            archive_custodian: Custodian::ArchiveCustodian { is_local_node_archival: self.archival },
            beneficial_owner: Custodian::BeneficialOwner { address: Some(miner), current_balance: u128_to_decimal(balance) },
        }
    }

    /// Position of `hash` on the selected chain.
    fn chain_index(&self, hash: &crate::hash::Hash) -> (r: Option<usize>)
        ensures
            match chain_position(self.main_chain@, hash@) {
                Some(k) => (r matches Some(x) && x as int == k) && k < self.main_chain@.len(),
                None => r is None,
            },
    {
        let mut k: usize = 0;
        while k < self.main_chain.len()
            invariant
                k <= self.main_chain@.len(),
                forall|j: int| 0 <= j < k ==> (#[trigger] self.main_chain@[j])@ != hash@,
            decreases self.main_chain@.len() - k,
        {
            if self.main_chain[k].equals(hash) {
                proof {
                    let c = self.main_chain@;
                    assert(has_digest(c, hash@));
                    let w = choose|w: int| 0 <= w < c.len() && c[w]@ == hash@ && forall|j: int| 0 <= j < w ==> c[j]@ != hash@;
                    assert(0 <= k < c.len() && c[k as int]@ == hash@ && forall|j: int| 0 <= j < k ==> c[j]@ != hash@);
                    if w < k {
                        assert(c[w]@ != hash@);
                    } else if w > k {
                        assert(c[k as int]@ != hash@);
                    }
                }
                return Some(k);
            }
            k = k + 1;
        }
        None
    }
}

impl EconomicEntity {
    /// The economic entity of the block with hash `hash`; `None` for an
    /// unknown block.
    #[verifier::rlimit(50)]
    pub fn for_block(state: &ChainState, hash: &crate::hash::Hash) -> (r: Option<EconomicEntity>)
        requires
            state.wf(),
            estimable(*state),
            state.pruned_selected_blocks + state.main_chain@.len() <= u64::MAX,
        ensures
            r is Some <==> state.store.has(hash@),
            r matches Some(e) ==> {
                let i = state.store.idx_of(hash@);
                let b = state.blocks@[i];
                &&& e.header_hash@ == hex_of(hash@)
                &&& e.height == match chain_position(state.main_chain@, hash@) {
                    Some(k) => Some((state.pruned_selected_blocks + k) as u64),
                    None => None,
                }
                &&& e.transaction_count == b.transparent_txs@.len()
                &&& e.difficulty == b.difficulty
                &&& provenance_of(b, state.chain_id, e.provenance)
                &&& custody_of(*state, b, e.custody)
                &&& lineage_of(*state, i, e.lineage)
                &&& finality_of(*state, i, e.finality)
                &&& is_chained(entry_views(e.audit_trail.entries@))
                &&& items_of(entry_views(e.audit_trail.entries@)) == trail_items(b.difficulty, b.parents@.len() == 0, e.provenance, e.lineage, e.finality)
                &&& e.audit_trail.trail_hash@ == e.audit_trail.entries@.last().entry_hash@
                &&& exists|est: FeeEstimate| #[trigger] spec_estimate_tiers(*state, est) && est.high >= est.low
                    && economics_of(*state, est, e.verification_economics)
            },
    {
        let i = match index_of(&state.store, hash) {
            Some(i) => i,
            None => {
                return None;
            },
        };
        proof {
            state.store.lemma_idx_of_unique(hash@, i as int);
        }
        let b = &state.blocks[i];
        let height = match state.chain_index(hash) {
            Some(k) => Some(state.pruned_selected_blocks + k as u64),
            None => None,
        };
        let provenance = state.provenance_at(i);
        let custody = state.custody_at(i);
        let lineage = state.lineage_at(i);
        let finality = state.finality_at(i);
        let audit_trail = AuditTrail::build(b.difficulty, b.parents.len() == 0, &provenance, &lineage, &finality);
        Some(EconomicEntity {
            header_hash: hash_hex(hash),
            height,
            transaction_count: b.transparent_txs.len(),
            difficulty: b.difficulty,
            provenance,
            custody,
            lineage,
            finality,
            audit_trail,
            verification_economics: VerificationEconomics::snapshot(state),
        })
    }
}

/// A block's life history as a short narrative.
#[derive(Clone, Debug)]
pub struct EconomicBiography {
    pub header_hash: String,
    pub origin: String,
    pub transformations: Vec<String>,
    pub current_state: String,
}

/// The origin sentence of a block entity.
pub open spec fn origin_text(e: EconomicEntity, is_genesis: bool) -> Seq<char> {
    if is_genesis {
        "Instrument created at genesis (t="@ + decimal_digits(e.provenance.issued_at_ms as nat) + "ms), issuing authority '"@
            + FOUNDER@ + "', jurisdiction "@ + e.provenance.jurisdiction@ + "."@
    } else {
        "Issued at t="@ + decimal_digits(e.provenance.issued_at_ms as nat) + "ms by "@ + match e.provenance.issuing_authority {
            Some(a) => a@,
            None => "unknown issuer"@,
        } + " via proof-of-work at difficulty "@ + decimal_digits(e.difficulty as nat)
            + ", notarized with a Birth Certificate over Settlement ID "@ + e.provenance.settlement_id@.take(16) + "."@
    }
}

/// The transformation sentences of a block entity.
pub open spec fn transformation_texts(e: EconomicEntity) -> Seq<Seq<char>> {
    let n_off = e.lineage.economic_offspring@.len();
    let n_sib = e.lineage.economic_siblings@.len();
    let a: Seq<Seq<char>> = if n_off > 0 {
        seq!["Extended by "@ + decimal_digits(n_off) + " descendant block(s) in the DAG."@]
    } else {
        Seq::empty()
    };
    let b = if n_sib > 0 {
        a.push(decimal_digits(n_sib) + " economic sibling(s) preserved (blue/red GHOSTDAG mergeset) rather than discarded as orphans."@)
    } else {
        a
    };
    let c = match e.finality.confirmations {
        Some(n) => b.push("Accrued "@ + decimal_digits(n as nat) + " confirmation(s) (blue-score distance from the selected tip)."@),
        None => b,
    };
    if e.finality.is_economically_final {
        c.push("Reached economic finality: beyond the reorg window, all claims settled."@)
    } else {
        c
    }
}

/// The current-state sentence of a block entity.
pub open spec fn state_text(e: EconomicEntity) -> Seq<char> {
    if e.finality.is_on_selected_chain {
        "Currently on the selected chain"@ + (if e.finality.is_economically_final { ", economically final"@ } else { ", awaiting finality"@ }) + "."@
    } else {
        "Currently a non-selected (red) DAG block \u{2014} still valid, but not on the main chain."@
    }
}

/// The block has no parents.
pub open spec fn is_genesis_block(b: Block) -> bool {
    b.parents@.len() == 0
}

/// The biography told by an entity.
#[verifier::opaque]
pub open spec fn biography_of(e: EconomicEntity, is_genesis: bool, r: EconomicBiography) -> bool {
    &&& r.header_hash@ == e.header_hash@
    &&& r.origin@ == origin_text(e, is_genesis)
    &&& strs(r.transformations@) == transformation_texts(e)
    &&& r.current_state@ == state_text(e)
}

/// `bio` tells the entity of the block with hash `h`: its header hash,
/// provenance, lineage, finality and difficulty.
pub open spec fn tells_block(state: ChainState, h: Seq<u8>, bio: EconomicBiography) -> bool {
    let i = state.store.idx_of(h);
    exists|e: EconomicEntity| #[trigger] biography_of(e, is_genesis_block(state.blocks@[i]), bio)
        && e.header_hash@ == hex_of(h)
        && provenance_of(state.blocks@[i], state.chain_id, e.provenance)
        && lineage_of(state, i, e.lineage)
        && finality_of(state, i, e.finality)
        && e.difficulty == state.blocks@[i].difficulty
}

/// The first `n` characters of an ASCII-only string.
fn ascii_prefix(s: &String, n: usize) -> (r: String)
    requires
        n <= s@.len(),
        vstd::utf8::is_ascii_chars(s@),
    ensures
        r@ == s@.take(n as int),
{
    let b = s.as_str().as_bytes();
    proof {
        vstd::utf8::is_ascii_chars_encode_utf8(s@);
        assert forall|i: int| 0 <= i < b@.len() implies b@[i] < 128 by {
            assert(s@[i] as u8 == b@[i]);
        }
    }
    let mut out: Vec<u8> = Vec::new();
    let mut k: usize = 0;
    while k < n
        invariant
            k <= n <= s@.len(),
            b@ == encode_utf8(s@),
            b@.len() == s@.len(),
            crate::bytes::all_ascii(b@),
            forall|i: int| 0 <= i < s@.len() ==> b@[i] as char == s@[i],
            out@ == b@.take(k as int),
        decreases n - k,
    {
        out.push(b[k]);
        proof {
            assert(out@ =~= b@.take(k + 1));
        }
        k = k + 1;
    }
    proof {
        assert(ascii_chars(out@) =~= s@.take(n as int));
    }
    crate::bytes::string_from_ascii(out)
}

impl EconomicBiography {
    /// The biography told by a block entity.
    pub fn from_entity(e: &EconomicEntity, is_genesis: bool) -> (r: EconomicBiography)
        requires
            e.provenance.settlement_id@.len() >= 16,
            vstd::utf8::is_ascii_chars(e.provenance.settlement_id@),
        ensures
            biography_of(*e, is_genesis, r),
    {
        reveal(biography_of);
        let origin = if is_genesis {
            let mut o = concat("Instrument created at genesis (t=", u64_to_decimal(e.provenance.issued_at_ms).as_str());
            o = append(o, "ms), issuing authority '");
            o = append(o, FOUNDER);
            o = append(o, "', jurisdiction ");
            o = append(o, e.provenance.jurisdiction.as_str());
            append(o, ".")
        } else {
            let mut o = concat("Issued at t=", u64_to_decimal(e.provenance.issued_at_ms).as_str());
            o = append(o, "ms by ");
            match &e.provenance.issuing_authority {
                Some(a) => {
                    o = append(o, a.as_str());
                },
                None => {
                    o = append(o, "unknown issuer");
                },
            }
            o = append(o, " via proof-of-work at difficulty ");
            o = append(o, u64_to_decimal(e.difficulty).as_str());
            o = append(o, ", notarized with a Birth Certificate over Settlement ID ");
            o = append(o, ascii_prefix(&e.provenance.settlement_id, 16).as_str());
            append(o, ".")
        };
        let mut t: Vec<String> = Vec::new();
        let ghost want = transformation_texts(*e);
        let n_off = e.lineage.economic_offspring.len();
        if n_off > 0 {
            t.push(append(concat("Extended by ", u64_to_decimal(n_off as u64).as_str()), " descendant block(s) in the DAG."));
        }
        let n_sib = e.lineage.economic_siblings.len();
        if n_sib > 0 {
            t.push(append(u64_to_decimal(n_sib as u64), " economic sibling(s) preserved (blue/red GHOSTDAG mergeset) rather than discarded as orphans."));
        }
        match e.finality.confirmations {
            Some(c) => {
                t.push(append(concat("Accrued ", u64_to_decimal(c).as_str()), " confirmation(s) (blue-score distance from the selected tip)."));
            },
            None => {},
        }
        if e.finality.is_economically_final {
            t.push(String::from_str("Reached economic finality: beyond the reorg window, all claims settled."));
        }
        proof {
            assert(strs(t@) =~= want);
        }
        let current_state = if e.finality.is_on_selected_chain {
            let o = String::from_str("Currently on the selected chain");
            let o = if e.finality.is_economically_final { append(o, ", economically final") } else { append(o, ", awaiting finality") };
            append(o, ".")
        } else {
            String::from_str("Currently a non-selected (red) DAG block \u{2014} still valid, but not on the main chain.")
        };
        EconomicBiography { header_hash: String::from_str(e.header_hash.as_str()), origin, transformations: t, current_state }
    }

    /// The biography of the block with hash `hash`; `None` for an unknown block.
    #[verifier::rlimit(60)]
    pub fn for_block(state: &ChainState, hash: &crate::hash::Hash) -> (r: Option<EconomicBiography>)
        requires
            state.wf(),
            estimable(*state),
            state.pruned_selected_blocks + state.main_chain@.len() <= u64::MAX,
        ensures
            r is Some <==> state.store.has(hash@),
            r matches Some(bio) ==> tells_block(*state, hash@, bio),
    {
        let e = match EconomicEntity::for_block(state, hash) {
            Some(e) => e,
            None => {
                return None;
            },
        };
        let i = match index_of(&state.store, hash) {
            Some(i) => i,
            None => {
                return None;
            },
        };
        proof {
            state.store.lemma_idx_of_unique(hash@, i as int);
            reveal(provenance_of);
        }
        let bio = Self::from_entity(&e, state.blocks[i].parents.len() == 0);
        proof {
            assert(biography_of(e, is_genesis_block(state.blocks@[state.store.idx_of(hash@)]), bio));
            assert(tells_block(*state, hash@, bio));
        }
        Some(bio)
    }
}

/// Settlement status of a transfer.
#[derive(Clone, Debug)]
pub enum TransactionLineage {
    Pending,
    Confirmed { containing_block: String, height: Option<u64> },
}

/// Mempool-to-block timing of a transfer.
#[derive(Clone, Debug)]
pub struct TransactionJourney {
    pub first_seen_ms: Option<u64>,
    pub confirmed_at_ms: Option<u64>,
    pub mempool_dwell_ms: Option<u64>,
}

/// A transfer as an economic entity: who signed it, where it settled, the
/// agents on both sides and its journey through the mempool.
#[derive(Clone, Debug)]
pub struct TransactionEconomicEntity {
    pub tx_hash: String,
    pub signed_by: String,
    pub nonce: u64,
    pub lineage: TransactionLineage,
    pub remitting_agent: String,
    pub beneficiary_agent: String,
    pub amount: String,
    pub fee: String,
    pub journey: TransactionJourney,
}

/// Some transfer of `txs` has id `h`.
pub open spec fn has_tx(txs: Seq<TransparentTx>, h: Seq<u8>) -> bool {
    exists|k: int| 0 <= k < txs.len() && spec_tx_hash((#[trigger] txs[k])@) == h
}

/// Position of the first transfer of `txs` with id `h`.
pub open spec fn first_tx(txs: Seq<TransparentTx>, h: Seq<u8>) -> int {
    choose|k: int| 0 <= k < txs.len() && spec_tx_hash(txs[k]@) == h && forall|j: int| 0 <= j < k ==> spec_tx_hash(txs[j]@) != h
}

/// The block at selected-chain position `i` is stored and holds transfer `h`.
pub open spec fn chain_block_has(s: ChainState, h: Seq<u8>, i: int) -> bool {
    &&& s.store.has(s.main_chain@[i]@)
    &&& has_tx(s.blocks@[s.store.idx_of(s.main_chain@[i]@)].transparent_txs@, h)
}

/// The first selected-chain position whose block holds transfer `h`.
pub open spec fn first_chain_hit(s: ChainState, h: Seq<u8>) -> int {
    choose|i: int| 0 <= i < s.main_chain@.len() && chain_block_has(s, h, i) && forall|j: int| 0 <= j < i ==> !chain_block_has(s, h, j)
}

/// Position of the first transfer with id `h`.
fn find_tx(txs: &Vec<TransparentTx>, h: &crate::hash::Hash) -> (r: Option<usize>)
    ensures
        match r {
            Some(k) => has_tx(txs@, h@) && k as int == first_tx(txs@, h@) && k < txs@.len(),
            None => !has_tx(txs@, h@),
        },
{
    let mut k: usize = 0;
    while k < txs.len()
        invariant
            k <= txs@.len(),
            forall|j: int| 0 <= j < k ==> spec_tx_hash((#[trigger] txs@[j])@) != h@,
        decreases txs@.len() - k,
    {
        if txs[k].tx_hash().equals(h) {
            proof {
                let w = first_tx(txs@, h@);
                assert(has_tx(txs@, h@));
                assert(0 <= k < txs@.len() && spec_tx_hash(txs@[k as int]@) == h@ && forall|j: int| 0 <= j < k ==> spec_tx_hash(txs@[j]@) != h@);
                if w < k {
                    assert(spec_tx_hash(txs@[w]@) != h@);
                } else if w > k {
                    assert(spec_tx_hash(txs@[k as int]@) != h@);
                }
            }
            return Some(k);
        }
        k = k + 1;
    }
    None
}

/// The selected-chain block holding transfer `tx_hash` (the first such block
/// along the chain), its height and the transfer (the first with that id in
/// the block).
pub fn find_confirmed_transfer<'a>(state: &'a ChainState, tx_hash: &crate::hash::Hash) -> (r: Option<(&'a Block, u64, &'a TransparentTx)>)
    requires
        state.wf(),
        state.pruned_selected_blocks + state.main_chain@.len() <= u64::MAX,
    ensures
        r is None <==> forall|i: int| 0 <= i < state.main_chain@.len() ==> !chain_block_has(*state, tx_hash@, i),
        r matches Some((b, height, tx)) ==> {
            let i = first_chain_hit(*state, tx_hash@);
            let blk = state.blocks@[state.store.idx_of(state.main_chain@[i]@)];
            &&& *b == blk
            &&& height == state.pruned_selected_blocks + i
            &&& *tx == blk.transparent_txs@[first_tx(blk.transparent_txs@, tx_hash@)]
        },
{
    let mut i: usize = 0;
    while i < state.main_chain.len()
        invariant
            state.wf(),
            i <= state.main_chain@.len(),
            state.pruned_selected_blocks + state.main_chain@.len() <= u64::MAX,
            forall|j: int| 0 <= j < i ==> !chain_block_has(*state, tx_hash@, j),
        decreases state.main_chain@.len() - i,
    {
        match index_of(&state.store, &state.main_chain[i]) {
            Some(bi) => {
                proof {
                    state.store.lemma_idx_of_unique(state.main_chain@[i as int]@, bi as int);
                }
                let b = &state.blocks[bi];
                match find_tx(&b.transparent_txs, tx_hash) {
                    Some(k) => {
                        proof {
                            let w = first_chain_hit(*state, tx_hash@);
                            assert(chain_block_has(*state, tx_hash@, i as int));
                            if w < i {
                                assert(!chain_block_has(*state, tx_hash@, w));
                            } else if w > i {
                                assert(!chain_block_has(*state, tx_hash@, i as int));
                            }
                        }
                        return Some((b, state.pruned_selected_blocks + i as u64, &b.transparent_txs[k]));
                    },
                    None => {},
                }
            },
            None => {},
        }
        i = i + 1;
    }
    None
}

/// The lineage, agents and journey of a transfer found in the mempool
/// (`pending`) or on the selected chain.
pub open spec fn tx_entity_of(tx: TransparentTx, h: Seq<u8>, seen: Option<u64>, e: TransactionEconomicEntity) -> bool {
    &&& e.tx_hash@ == hex_of(h)
    &&& e.signed_by@ == tx.from@
    &&& e.nonce == tx.nonce
    &&& e.remitting_agent@ == tx.from@
    &&& e.beneficiary_agent@ == tx.to@
    &&& e.amount@ == decimal_digits(tx.amount as nat)
    &&& e.fee@ == decimal_digits(tx.fee as nat)
    &&& e.journey.first_seen_ms == seen
}

impl TransactionEconomicEntity {
    fn describe(tx: &TransparentTx, h: &crate::hash::Hash, lineage: TransactionLineage, journey: TransactionJourney) -> (r: TransactionEconomicEntity)
        ensures
            r.tx_hash@ == hex_of(h@),
            r.signed_by@ == tx.from@,
            r.nonce == tx.nonce,
            r.remitting_agent@ == tx.from@,
            r.beneficiary_agent@ == tx.to@,
            r.amount@ == decimal_digits(tx.amount as nat),
            r.fee@ == decimal_digits(tx.fee as nat),
            r.lineage == lineage,
            r.journey == journey,
    {
        TransactionEconomicEntity {
            tx_hash: hash_hex(h),
            signed_by: String::from_str(tx.from.as_str()),
            nonce: tx.nonce,
            lineage,
            remitting_agent: String::from_str(tx.from.as_str()),
            beneficiary_agent: String::from_str(tx.to.as_str()),
            amount: u128_to_decimal(tx.amount),
            fee: u128_to_decimal(tx.fee),
            journey,
        }
    }

    /// The economic entity of transfer `tx_hash`: pending when it waits in
    /// the mempool, confirmed when a selected-chain block holds it (with the
    /// block's time and the dwell time since first seen), `None` otherwise.
    pub fn for_tx(state: &ChainState, tx_hash: &crate::hash::Hash) -> (r: Option<TransactionEconomicEntity>)
        requires
            state.wf(),
            state.pruned_selected_blocks + state.main_chain@.len() <= u64::MAX,
        ensures
            r is Some <==> (has_tx(state.transparent_mempool@, tx_hash@)
                || exists|i: int| 0 <= i < state.main_chain@.len() && chain_block_has(*state, tx_hash@, i)),
            has_tx(state.transparent_mempool@, tx_hash@) ==> (r matches Some(e) && e.lineage is Pending
                && tx_entity_of(state.transparent_mempool@[first_tx(state.transparent_mempool@, tx_hash@)], tx_hash@,
                    seen_of(state.tx_first_seen_ms@, tx_hash@), e)
                && e.journey.confirmed_at_ms is None && e.journey.mempool_dwell_ms is None),
            !has_tx(state.transparent_mempool@, tx_hash@) ==> (r matches Some(e) ==> {
                let i = first_chain_hit(*state, tx_hash@);
                let blk = state.blocks@[state.store.idx_of(state.main_chain@[i]@)];
                let seen = seen_of(state.tx_first_seen_ms@, tx_hash@);
                &&& tx_entity_of(blk.transparent_txs@[first_tx(blk.transparent_txs@, tx_hash@)], tx_hash@, seen, e)
                &&& (e.lineage matches TransactionLineage::Confirmed { containing_block: c, height: Some(ht) }
                    && c@ == hex_of(crate::block::spec_block_hash(blk)) && ht == state.pruned_selected_blocks + i)
                &&& e.journey.confirmed_at_ms == Some(blk.timestamp)
                &&& e.journey.mempool_dwell_ms == match seen {
                    Some(t) => Some(if blk.timestamp >= t { (blk.timestamp - t) as u64 } else { 0u64 }),
                    None => None::<u64>,
                }
            }),
    {
        let first_seen_ms = find_seen(&state.tx_first_seen_ms, tx_hash);
        match find_tx(&state.transparent_mempool, tx_hash) {
            Some(k) => {
                let tx = &state.transparent_mempool[k];
                let journey = TransactionJourney { first_seen_ms, confirmed_at_ms: None, mempool_dwell_ms: None };
                return Some(Self::describe(tx, tx_hash, TransactionLineage::Pending, journey));
            },
            None => {},
        }
        match find_confirmed_transfer(state, tx_hash) {
            Some((b, height, tx)) => {
                let dwell = match first_seen_ms {
                    Some(t) => Some(b.timestamp.saturating_sub(t)),
                    None => None,
                };
                let journey = TransactionJourney { first_seen_ms, confirmed_at_ms: Some(b.timestamp), mempool_dwell_ms: dwell };
                let lineage = TransactionLineage::Confirmed { containing_block: hash_hex(&b.hash()), height: Some(height) };
                Some(Self::describe(tx, tx_hash, lineage, journey))
            },
            None => None,
        }
    }
}

/// Entries of `v` other than those for key `k`, in order.
pub open spec fn drop_key(v: Seq<(crate::hash::Hash, u64)>, k: Seq<u8>) -> Seq<(crate::hash::Hash, u64)>
    decreases v.len(),
{
    if v.len() == 0 {
        v
    } else if v.last().0@ == k {
        drop_key(v.drop_last(), k)
    } else {
        drop_key(v.drop_last(), k).push(v.last())
    }
}

/// Transactions tracked for first-seen times before the oldest is dropped.
pub const MAX_TRACKED_FIRST_SEEN: usize = 20000;

/// The first-seen tables after recording `h` at time `now` with tip blue
/// score `tip`: when the time table is full and lacks `h`, its first key is
/// dropped from both tables; `h` is then added to each table lacking it.
pub open spec fn first_seen_after(ms: Seq<(crate::hash::Hash, u64)>, blue: Seq<(crate::hash::Hash, u64)>, h: crate::hash::Hash, now: u64, tip: u64)
    -> (Seq<(crate::hash::Hash, u64)>, Seq<(crate::hash::Hash, u64)>)
{
    let evict = ms.len() >= MAX_TRACKED_FIRST_SEEN && seen_of(ms, h@) is None && ms.len() > 0;
    let ms1 = if evict { drop_key(ms, ms[0].0@) } else { ms };
    let blue1 = if evict { drop_key(blue, ms[0].0@) } else { blue };
    let ms2 = if seen_of(ms1, h@) is None { ms1.push((h, now)) } else { ms1 };
    let blue2 = if seen_of(blue1, h@) is None { blue1.push((h, tip)) } else { blue1 };
    (ms2, blue2)
}

/// `v` without the entries for key `k`.
fn without_key(v: &Vec<(crate::hash::Hash, u64)>, k: &crate::hash::Hash) -> (r: Vec<(crate::hash::Hash, u64)>)
    ensures
        r@ == drop_key(v@, k@),
{
    let mut out: Vec<(crate::hash::Hash, u64)> = Vec::new();
    let mut i: usize = 0;
    while i < v.len()
        invariant
            i <= v@.len(),
            out@ == drop_key(v@.take(i as int), k@),
        decreases v@.len() - i,
    {
        proof {
            assert(v@.take(i + 1).drop_last() =~= v@.take(i as int));
            assert(v@.take(i + 1).last() == v@[i as int]);
        }
        if !v[i].0.equals(k) {
            out.push(v[i]);
        }
        i = i + 1;
    }
    proof {
        assert(v@.take(v@.len() as int) =~= v@);
    }
    out
}

/// Record the first-seen time `now` and the selected tip's blue score for
/// transaction `tx_hash` (kept when already recorded), dropping the oldest
/// tracked transaction when the table is full.
pub fn record_first_seen_at(state: &mut ChainState, tx_hash: crate::hash::Hash, now: u64)
    requires
        old(state).store.wf(),
    ensures
        (final(state).tx_first_seen_ms@, final(state).tx_first_seen_blue@) == first_seen_after(
            old(state).tx_first_seen_ms@, old(state).tx_first_seen_blue@, tx_hash, now,
            spec_tip_score(old(state).store, old(state).tips@) as u64),
        *final(state) == (ChainState { tx_first_seen_ms: final(state).tx_first_seen_ms, tx_first_seen_blue: final(state).tx_first_seen_blue, ..*old(state) }),
{
    let tip = state.selected_tip_blue_score();
    if state.tx_first_seen_ms.len() >= MAX_TRACKED_FIRST_SEEN && find_seen(&state.tx_first_seen_ms, &tx_hash).is_none()
        && state.tx_first_seen_ms.len() > 0 {
        let k = state.tx_first_seen_ms[0].0;
        state.tx_first_seen_ms = without_key(&state.tx_first_seen_ms, &k);
        state.tx_first_seen_blue = without_key(&state.tx_first_seen_blue, &k);
    }
    if find_seen(&state.tx_first_seen_ms, &tx_hash).is_none() {
        state.tx_first_seen_ms.push((tx_hash, now));
    }
    if find_seen(&state.tx_first_seen_blue, &tx_hash).is_none() {
        state.tx_first_seen_blue.push((tx_hash, tip));
    }
}

/// Record transaction `tx_hash` as first seen now (see `record_first_seen_at`).
pub fn record_first_seen(state: &mut ChainState, tx_hash: crate::hash::Hash)
    requires
        old(state).store.wf(),
    ensures
        exists|now: u64| (final(state).tx_first_seen_ms@, final(state).tx_first_seen_blue@) == #[trigger] first_seen_after(
            old(state).tx_first_seen_ms@, old(state).tx_first_seen_blue@, tx_hash, now,
            spec_tip_score(old(state).store, old(state).tips@) as u64),
        *final(state) == (ChainState { tx_first_seen_ms: final(state).tx_first_seen_ms, tx_first_seen_blue: final(state).tx_first_seen_blue, ..*old(state) }),
{
    let now = crate::crypto::now_ms();
    record_first_seen_at(state, tx_hash, now);
}

} // verus!
