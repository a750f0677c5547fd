//! Cold-start pruning-point proofs: the header-only selected chain from
//! genesis to the pruning point, each header re-checked for linkage,
//! DAA-mandated difficulty, proof of work and timestamp sanity.

use vstd::prelude::*;
use vstd::string::StringExecFns;
use crate::abs_sig::{decimal_digits, text_with_number};
use crate::block::{genesis_hash, spec_block_hash, spec_genesis_identity, Block};
use crate::crypto::{blake3_xof, now_ms};
use crate::genesis::{cumulative_issuance, era_min_difficulty_with_override, spec_cumulative_issuance, spec_era_min_difficulty,
    DAA_WINDOW, MAX_FUTURE_DRIFT_MS};
use crate::pow::{retarget_difficulty, spec_retarget, spec_verify_pow, verify_pow};

verus! {

/// Upper bound on headers in an accepted pruning-point proof.
pub const MAX_PRUNING_PROOF_HEADERS: usize = 1_000_000;

/// Header-only blocks, genesis first, ending at the pruning point.
#[derive(Clone, Debug)]
pub struct PruningProof {
    pub headers: Vec<Block>,
}

/// What a verified pruning-point proof establishes.
#[derive(Clone, Debug)]
pub struct PruningProofSummary {
    /// The pruning-point block hash.
    pub pruning_point: crate::hash::Hash,
    /// Total proof of work (sum of difficulties) behind the chain.
    pub cumulative_work: u128,
    /// Number of headers in the proof.
    pub header_count: usize,
}

fn max_u64(a: u64, b: u64) -> (r: u64)
    ensures
        r == if a >= b { a } else { b },
{
    if a >= b {
        a
    } else {
        b
    }
}

/// The DAA-expected difficulty of header `i` of a linear selected chain: the
/// previous difficulty floored by the supply era (supply simulated as the
/// issuance up to `i`), retargeted over the last `DAA_WINDOW` headers once
/// that many exist.
pub open spec fn spec_expected_linear(hs: Seq<Block>, i: int, lab_easy: bool) -> u64 {
    let floor = spec_era_min_difficulty(lab_easy, spec_cumulative_issuance(i as nat));
    let prev = hs[i - 1].difficulty;
    let sp = if prev >= floor { prev } else { floor };
    if i < DAA_WINDOW {
        sp
    } else {
        let rt = spec_retarget(sp, hs[i - 1].timestamp, hs[i - DAA_WINDOW].timestamp, floor);
        if rt >= floor { rt } else { floor }
    }
}

fn expected_difficulty_linear(headers: &Vec<Block>, i: usize, lab_easy: bool) -> (r: u64)
    requires
        1 <= i < headers@.len(),
    ensures
        r == spec_expected_linear(headers@, i as int, lab_easy),
{
    let minted = cumulative_issuance(i as u64);
    let ts = headers[i].timestamp;
    let floor = era_min_difficulty_with_override(lab_easy, minted, ts);
    let sp = max_u64(headers[i - 1].difficulty, floor);
    if i < DAA_WINDOW {
        return max_u64(sp, floor);
    }
    let newest = headers[i - 1].timestamp;
    let oldest = headers[i - DAA_WINDOW].timestamp;
    max_u64(retarget_difficulty(sp, newest, oldest, floor), floor)
}

/// `h` names some parent of `b` by hash.
pub open spec fn names_parent(b: Block, h: Seq<u8>) -> bool {
    exists|k: int| 0 <= k < b.parents@.len() && #[trigger] b.parents@[k]@ == h
}

/// Header `i` (after genesis) of a proof checked at time `now`.
pub open spec fn header_ok(hs: Seq<Block>, i: int, now: u64, lab_easy: bool) -> bool {
    &&& names_parent(hs[i], spec_block_hash(hs[i - 1]))
    &&& hs[i].difficulty == spec_expected_linear(hs, i, lab_easy)
    &&& spec_verify_pow(spec_block_hash(hs[i]), hs[i].difficulty)
    &&& hs[i].timestamp >= hs[i - 1].timestamp
    &&& hs[i].timestamp <= if now as int + MAX_FUTURE_DRIFT_MS <= u64::MAX { now + MAX_FUTURE_DRIFT_MS } else { u64::MAX as int }
}

/// Whether a proof with headers `hs` is accepted at time `now`.
pub open spec fn proof_accepted(hs: Seq<Block>, now: u64, lab_easy: bool) -> bool {
    &&& hs.len() > 0
    &&& hs.len() <= MAX_PRUNING_PROOF_HEADERS
    &&& spec_block_hash(hs[0]) == blake3_xof(spec_genesis_identity(), 64)
    &&& hs[0].parents@.len() == 0
    &&& forall|i: int| 1 <= i < hs.len() ==> #[trigger] header_ok(hs, i, now, lab_easy)
}

/// `header {i}` followed by `tail`.
pub open spec fn header_text(i: int, tail: Seq<char>) -> Seq<char> {
    "header "@ + decimal_digits(i as nat) + tail
}

/// Why header `i` (after genesis) fails, checks taken in order.
pub open spec fn header_error(hs: Seq<Block>, i: int, now: u64, lab_easy: bool) -> Seq<char> {
    if !names_parent(hs[i], spec_block_hash(hs[i - 1])) {
        "broken chain linkage at header "@ + decimal_digits(i as nat)
    } else if hs[i].difficulty != spec_expected_linear(hs, i, lab_easy) {
        header_text(i, " claims a non-DAA difficulty"@)
    } else if !spec_verify_pow(spec_block_hash(hs[i]), hs[i].difficulty) {
        header_text(i, " fails its proof-of-work"@)
    } else if hs[i].timestamp < hs[i - 1].timestamp {
        header_text(i, " timestamp predates its parent"@)
    } else {
        header_text(i, " timestamp is too far in the future"@)
    }
}

/// The first failing header at or after `i`.
pub open spec fn first_bad_header(hs: Seq<Block>, now: u64, lab_easy: bool, i: int) -> Option<int>
    decreases hs.len() - i,
{
    if i >= hs.len() || i < 1 {
        None
    } else if !header_ok(hs, i, now, lab_easy) {
        Some(i)
    } else {
        first_bad_header(hs, now, lab_easy, i + 1)
    }
}

/// The refusal of a proof checked at `now`, or `None` when it is accepted.
pub open spec fn proof_error(hs: Seq<Block>, now: u64, lab_easy: bool) -> Option<Seq<char>> {
    if hs.len() == 0 {
        Some("empty pruning proof"@)
    } else if hs.len() > MAX_PRUNING_PROOF_HEADERS {
        Some("pruning proof exceeds the header limit"@)
    } else if spec_block_hash(hs[0]) != blake3_xof(spec_genesis_identity(), 64) {
        Some("pruning proof does not start at genesis"@)
    } else if hs[0].parents@.len() != 0 {
        Some("genesis header must have no parents"@)
    } else {
        match first_bad_header(hs, now, lab_easy, 1) {
            Some(i) => Some(header_error(hs, i, now, lab_easy)),
            None => None,
        }
    }
}

proof fn lemma_first_bad_none(hs: Seq<Block>, now: u64, lab_easy: bool, i: int)
    requires
        1 <= i,
        first_bad_header(hs, now, lab_easy, i) is None,
    ensures
        forall|j: int| i <= j < hs.len() ==> #[trigger] header_ok(hs, j, now, lab_easy),
    decreases hs.len() - i,
{
    if i < hs.len() {
        lemma_first_bad_none(hs, now, lab_easy, i + 1);
    }
}

proof fn lemma_first_bad_skip(hs: Seq<Block>, now: u64, lab_easy: bool, i: int, k: int)
    requires
        1 <= i <= k,
        forall|j: int| i <= j < k ==> #[trigger] header_ok(hs, j, now, lab_easy),
    ensures
        first_bad_header(hs, now, lab_easy, i) == first_bad_header(hs, now, lab_easy, k),
    decreases k - i,
{
    if i < k {
        assert(header_ok(hs, i, now, lab_easy));
        lemma_first_bad_skip(hs, now, lab_easy, i + 1, k);
    }
}

/// Sum of the difficulties of the first `n` headers.
pub open spec fn work_sum(hs: Seq<Block>, n: int) -> nat
    decreases n,
{
    if n <= 0 {
        0
    } else {
        work_sum(hs, n - 1) + hs[n - 1].difficulty as nat
    }
}

fn contains_hash(v: &Vec<crate::hash::Hash>, h: &crate::hash::Hash) -> (r: bool)
    ensures
        r == exists|k: int| 0 <= k < v@.len() && #[trigger] v@[k]@ == h@,
{
    let mut k: usize = 0;
    while k < v.len()
        invariant
            k <= v@.len(),
            forall|j: int| 0 <= j < k ==> v@[j]@ != h@,
        decreases v@.len() - k,
    {
        if v[k].equals(h) {
            return true;
        }
        k = k + 1;
    }
    false
}

proof fn lemma_work_bound(hs: Seq<Block>, n: int)
    requires
        0 <= n,
    ensures
        work_sum(hs, n) <= n * (u64::MAX as int),
    decreases n,
{
    if n > 0 {
        lemma_work_bound(hs, n - 1);
    }
}

/// Verify a pruning-point proof against the clock reading `now`: genesis
/// anchor, linkage, DAA difficulty (with the lab override of the era floor
/// when `lab_easy`), proof of work and timestamps.
pub fn verify_pruning_proof_at(proof: &PruningProof, now: u64, lab_easy: bool) -> (r: Result<PruningProofSummary, String>)
    ensures
        r is Ok <==> proof_accepted(proof.headers@, now, lab_easy),
        proof_error(proof.headers@, now, lab_easy) is None <==> proof_accepted(proof.headers@, now, lab_easy),
        r matches Err(e) ==> proof_error(proof.headers@, now, lab_easy) == Some(e@),
        r matches Ok(sum) ==> {
            &&& sum.pruning_point@ == spec_block_hash(proof.headers@.last())
            &&& sum.cumulative_work == work_sum(proof.headers@, proof.headers@.len() as int)
            &&& sum.header_count == proof.headers@.len()
        },
{
    if proof.headers.len() == 0 {
        return Err(String::from_str("empty pruning proof"));
    }
    if proof.headers.len() > MAX_PRUNING_PROOF_HEADERS {
        return Err(String::from_str("pruning proof exceeds the header limit"));
    }
    let g = genesis_hash();
    if !proof.headers[0].hash().equals(&g) {
        return Err(String::from_str("pruning proof does not start at genesis"));
    }
    if proof.headers[0].parents.len() != 0 {
        return Err(String::from_str("genesis header must have no parents"));
    }
    let limit = now.saturating_add(MAX_FUTURE_DRIFT_MS);
    let mut cumulative_work: u128 = proof.headers[0].difficulty as u128;
    let mut i: usize = 1;
    proof {
        assert(work_sum(proof.headers@, 0) == 0);
        assert(work_sum(proof.headers@, 1) == proof.headers@[0].difficulty);
    }
    while i < proof.headers.len()
        invariant
            1 <= i <= proof.headers@.len(),
            proof.headers@.len() <= MAX_PRUNING_PROOF_HEADERS,
            spec_block_hash(proof.headers@[0]) == blake3_xof(spec_genesis_identity(), 64),
            proof.headers@[0].parents@.len() == 0,
            limit == if now as int + MAX_FUTURE_DRIFT_MS <= u64::MAX { now + MAX_FUTURE_DRIFT_MS } else { u64::MAX as int },
            forall|j: int| 1 <= j < i ==> #[trigger] header_ok(proof.headers@, j, now, lab_easy),
            cumulative_work == work_sum(proof.headers@, i as int),
        decreases proof.headers@.len() - i,
    {
        let cur = &proof.headers[i];
        let prev_hash = proof.headers[i - 1].hash();
        if !contains_hash(&cur.parents, &prev_hash) {
            let e = text_with_number("broken chain linkage at header ", i as u64);
            proof {
                lemma_first_bad_skip(proof.headers@, now, lab_easy, 1, i as int);
                assert(!header_ok(proof.headers@, i as int, now, lab_easy));
                assert(!proof_accepted(proof.headers@, now, lab_easy));
            }
            return Err(e);
        }
        if cur.difficulty != expected_difficulty_linear(&proof.headers, i, lab_easy) {
            let e = crate::economics::concat(text_with_number("header ", i as u64).as_str(), " claims a non-DAA difficulty");
            proof {
                lemma_first_bad_skip(proof.headers@, now, lab_easy, 1, i as int);
                assert(!header_ok(proof.headers@, i as int, now, lab_easy));
                assert(!proof_accepted(proof.headers@, now, lab_easy));
            }
            return Err(e);
        }
        if !verify_pow(&cur.hash(), cur.difficulty) {
            let e = crate::economics::concat(text_with_number("header ", i as u64).as_str(), " fails its proof-of-work");
            proof {
                lemma_first_bad_skip(proof.headers@, now, lab_easy, 1, i as int);
                assert(!header_ok(proof.headers@, i as int, now, lab_easy));
                assert(!proof_accepted(proof.headers@, now, lab_easy));
            }
            return Err(e);
        }
        if cur.timestamp < proof.headers[i - 1].timestamp {
            let e = crate::economics::concat(text_with_number("header ", i as u64).as_str(), " timestamp predates its parent");
            proof {
                lemma_first_bad_skip(proof.headers@, now, lab_easy, 1, i as int);
                assert(!header_ok(proof.headers@, i as int, now, lab_easy));
                assert(!proof_accepted(proof.headers@, now, lab_easy));
            }
            return Err(e);
        }
        if cur.timestamp > limit {
            let e = crate::economics::concat(text_with_number("header ", i as u64).as_str(), " timestamp is too far in the future");
            proof {
                lemma_first_bad_skip(proof.headers@, now, lab_easy, 1, i as int);
                assert(!header_ok(proof.headers@, i as int, now, lab_easy));
                assert(!proof_accepted(proof.headers@, now, lab_easy));
            }
            return Err(e);
        }
        proof {
            lemma_work_bound(proof.headers@, i + 1);
            assert((i + 1) * (u64::MAX as int) <= 1_000_001 * (u64::MAX as int)) by (nonlinear_arith)
                requires
                    i + 1 <= 1_000_001,
            ;
        }
        cumulative_work = cumulative_work + cur.difficulty as u128;
        i = i + 1;
    }
    proof {
        lemma_first_bad_skip(proof.headers@, now, lab_easy, 1, proof.headers@.len() as int);
    }
    let last = proof.headers.len() - 1;
    Ok(PruningProofSummary { pruning_point: proof.headers[last].hash(), cumulative_work, header_count: proof.headers.len() })
}

/// Verify a pruning-point proof from scratch against the wall clock, under
/// the default supply-era schedule (no lab override).
pub fn verify_pruning_proof(proof: &PruningProof) -> (r: Result<PruningProofSummary, String>)
    ensures
        r matches Ok(sum) ==> exists|now: u64| #[trigger] proof_accepted(proof.headers@, now, false)
            && sum.pruning_point@ == spec_block_hash(proof.headers@.last())
            && sum.cumulative_work == work_sum(proof.headers@, proof.headers@.len() as int)
            && sum.header_count == proof.headers@.len(),
        (r is Err) ==> exists|now: u64| !(#[trigger] proof_accepted(proof.headers@, now, false)),
        r matches Err(e) ==> exists|now: u64| #[trigger] proof_error(proof.headers@, now, false) == Some(e@),
        (forall|now: u64| #[trigger] proof_accepted(proof.headers@, now, false)) ==> r is Ok,
{
    let now = now_ms();
    verify_pruning_proof_at(proof, now, false)
}

} // verus!
