//! The chain state's query and fee-market side: the stored DAG with its
//! GHOSTDAG data, tips and selected chain, account balances, the transparent
//! mempool and the confirmation-target fee estimator.

use vstd::prelude::*;
use vstd::string::StringExecFns;
use vstd::relations::{sorted_by, total_ordering};
use crate::block::{genesis_block, spec_block_hash, Block};
use crate::fee::{history_points, walk_result, FeeRateHistory, FEE_TARGET_HIGH_BLUES, FEE_TARGET_LOW_BLUES, FEE_TARGET_MEDIUM_BLUES};
use crate::genesis::{effective_min_difficulty, BLOCK_REWARD, BOOTSTRAP_MIN_DIFFICULTY, CHAIN_ID, MAX_MEMPOOL_SIZE, TOTAL_SUPPLY};
use crate::ghostdag::{is_best_of, present_parent_indices, select_parent_idx, DagNode, DagStore};
use crate::pow::{spec_min_relay_fee, typical_signed_tx_min_fee};
use crate::tx::{relay_bytes_usize, spec_tx_hash, TransparentTx};

verus! {

/// An account-model balance.
#[derive(Clone, Copy, Debug)]
pub struct Account {
    pub balance: u128,
    pub nonce: u64,
    /// Blue score when the account last spent (relative-lock base).
    pub last_spend_blue: u64,
    pub code_hash: Option<crate::hash::Hash>,
    pub storage_root: crate::hash::Hash,
}

impl Default for Account {
    fn default() -> (r: Account)
        ensures
            r.balance == 0,
            r.nonce == 0,
            r.last_spend_blue == 0,
            r.code_hash is None,
            r.storage_root@ == Seq::new(64, |i: int| 0u8),
    {
        Account { balance: 0, nonce: 0, last_spend_blue: 0, code_hash: None, storage_root: crate::hash::Hash::zero() }
    }
}

/// A snapshot of the value state: balances, stake and supply counters.
#[derive(Clone, Debug)]
pub struct Ledger {
    pub accounts: Vec<(String, Account)>,
    pub minted_supply: u128,
    pub fees_burned: u128,
    pub treasury: u128,
    /// Coins locked in stake.
    pub staked: Vec<(String, u128)>,
}

/// The ledger committed at a pruning point, for cold-start sync.
#[derive(Clone, Debug)]
pub struct PruningPointLedger {
    pub pruning_point: crate::hash::Hash,
    pub ledger: Ledger,
}

/// A miner identity.
#[derive(Clone, Debug)]
pub struct Miner {
    pub address: String,
    /// Full ML-DSA-87 public key.
    pub public_key: Vec<u8>,
    /// Local-only signing key for birth certificates.
    pub signing_key: Option<Vec<u8>>,
    pub stake: u128,
    pub hashrate: u64,
    pub tor_address: Option<String>,
    pub is_pool: bool,
}

/// A mining job handed to a worker.
#[derive(Clone, Debug)]
pub struct MiningWork {
    pub block_template: Block,
    pub target: crate::hash::Hash,
    pub job_id: String,
    pub extranonce: Vec<u8>,
}

/// A share submitted for a mining job.
#[derive(Clone, Debug)]
pub struct StratumShare {
    pub job_id: String,
    pub nonce: u64,
    pub miner: String,
    pub result: crate::hash::Hash,
    pub tor_proof: Option<String>,
}

/// Fee-market snapshot; all values in base units.
#[derive(Clone, Copy, Debug)]
pub struct FeeEstimate {
    /// Fee for about 100-blue confirmation.
    pub low: u128,
    /// Fee for about 20-blue confirmation.
    pub medium: u128,
    /// Fee for about 6-blue confirmation.
    pub high: u128,
    /// Number of transfers the estimate looked at.
    pub mempool_txs: usize,
    /// Number of includable ancestor packages.
    pub package_count: usize,
    /// Total fee of the best-scoring package prefix.
    pub best_package_fee: u128,
    pub high_target_blues: u64,
    pub medium_target_blues: u64,
    pub low_target_blues: u64,
}

/// The chain state: blocks and their GHOSTDAG data by store position, tips,
/// the selected chain, balances, the transparent mempool and fee history.
pub struct ChainState {
    /// GHOSTDAG data of every stored block, by position.
    pub store: DagStore,
    /// The stored blocks, at the same positions as `store`.
    pub blocks: Vec<Block>,
    pub tips: Vec<crate::hash::Hash>,
    pub main_chain: Vec<crate::hash::Hash>,
    pub accounts: Vec<(String, Account)>,
    /// Coins locked in stake.
    pub staked: Vec<(String, u128)>,
    pub total_supply: u128,
    /// Coins minted by block subsidies so far.
    pub minted_supply: u128,
    pub block_reward: u128,
    pub difficulty: u64,
    pub chain_id: u64,
    /// Pending transparent transfers.
    pub transparent_mempool: Vec<TransparentTx>,
    pub fees_burned: u128,
    pub treasury: u128,
    pub tor_nodes: Vec<String>,
    /// Selected-chain blocks discarded by pruning.
    pub pruned_selected_blocks: u64,
    /// Archival nodes keep every block body and header.
    pub archival: bool,
    /// The pruning point this node serves, if any.
    pub pruning_point: Option<crate::hash::Hash>,
    /// Mempool admission time per transaction id (milliseconds).
    pub tx_first_seen_ms: Vec<(crate::hash::Hash, u64)>,
    /// Selected-tip blue score at mempool admission per transaction id.
    pub tx_first_seen_blue: Vec<(crate::hash::Hash, u64)>,
    /// Rolling confirmation-target fee samples.
    pub fee_history: FeeRateHistory,
    /// Lab override of the supply-era proof-of-work floor: keep the
    /// bootstrap floor whatever has been minted (off by default).
    pub lab_easy_pow: bool,
}

/// The first account entry for `addr`.
pub open spec fn lookup_account(accts: Seq<(String, Account)>, addr: Seq<char>) -> Option<Account>
    decreases accts.len(),
{
    if accts.len() == 0 {
        None
    } else if accts[0].0@ == addr {
        Some(accts[0].1)
    } else {
        lookup_account(accts.drop_first(), addr)
    }
}

/// Balance of `addr` (0 when absent).
pub open spec fn balance_of(accts: Seq<(String, Account)>, addr: Seq<char>) -> u128 {
    match lookup_account(accts, addr) {
        Some(a) => a.balance,
        None => 0,
    }
}

/// Nonce of `addr` (0 when absent).
pub open spec fn nonce_of(accts: Seq<(String, Account)>, addr: Seq<char>) -> u64 {
    match lookup_account(accts, addr) {
        Some(a) => a.nonce,
        None => 0,
    }
}

/// The entry for `addr`, if any.
pub(crate) fn find_account(accts: &Vec<(String, Account)>, addr: &String) -> (r: Option<Account>)
    ensures
        r == lookup_account(accts@, addr@),
{
    let mut i: usize = 0;
    proof {
        assert(accts@.skip(0) =~= accts@);
    }
    while i < accts.len()
        invariant
            i <= accts@.len(),
            lookup_account(accts@, addr@) == lookup_account(accts@.skip(i as int), addr@),
        decreases accts@.len() - i,
    {
        proof {
            assert(accts@.skip(i as int).drop_first() =~= accts@.skip(i + 1));
            assert(accts@.skip(i as int)[0] == accts@[i as int]);
        }
        if accts[i].0 == *addr {
            return Some(accts[i].1);
        }
        i = i + 1;
    }
    proof {
        assert(accts@.skip(i as int) =~= Seq::<(String, Account)>::empty());
    }
    None
}

/// The blue score of the selected tip (0 when no tip is stored).
pub open spec fn spec_tip_score(s: DagStore, tips: Seq<crate::hash::Hash>) -> int {
    let p = s.present_indices(tips);
    if p.len() == 0 {
        0
    } else {
        s.score((choose|i: usize| is_best_of(s, p, i)) as int)
    }
}

/// Sum of the balances of a list of accounts (saturating at `u128::MAX`).
pub open spec fn sum_balances(a: Seq<(String, Account)>) -> nat
    decreases a.len(),
{
    if a.len() == 0 {
        0
    } else {
        sum_balances(a.drop_last()) + a.last().1.balance as nat
    }
}

/// Sum of stake amounts.
pub open spec fn sum_staked(a: Seq<(String, u128)>) -> nat
    decreases a.len(),
{
    if a.len() == 0 {
        0
    } else {
        sum_staked(a.drop_last()) + a.last().1 as nat
    }
}

/// The relay floor under congestion: the protocol floor, rising to the
/// lowest queued fee once the pool is three-quarters full, and strictly above
/// it once the pool is full.
pub open spec fn spec_min_relay_fee_now(fees: Seq<u128>, floor: u128) -> u128 {
    let full = fees.len() >= MAX_MEMPOOL_SIZE;
    let hot = fees.len() * 4 >= MAX_MEMPOOL_SIZE * 3;
    if !full && !hot || fees.len() == 0 {
        floor
    } else {
        let f = min_fee_of(fees);
        let g: u128 = if full { if f < u128::MAX { (f + 1) as u128 } else { u128::MAX } } else { f };
        if g > floor { g } else { floor }
    }
}

/// The smallest fee of a nonempty list.
pub open spec fn min_fee_of(fees: Seq<u128>) -> u128
    decreases fees.len(),
{
    if fees.len() <= 1 {
        fees[0]
    } else {
        let m = min_fee_of(fees.drop_last());
        if fees.last() < m { fees.last() } else { m }
    }
}

/// The fees of the transfers in a mempool.
pub open spec fn fees_of(mp: Seq<TransparentTx>) -> Seq<u128> {
    mp.map_values(|t: TransparentTx| t.fee)
}

/// The protocol relay floor for a typical signed transfer.
pub open spec fn typical_floor() -> u128 {
    spec_min_relay_fee((crate::crypto::PQ_PUBLIC_KEY_SIZE + crate::crypto::PQ_SIGNATURE_SIZE + 512) as nat) as u128
}

impl ChainState {
    /// Well-formedness: a well-formed store with one block per position,
    /// each stored under the hash of its block.
    pub open spec fn wf(&self) -> bool {
        &&& self.store.wf()
        &&& self.blocks@.len() == self.store.len()
        &&& forall|i: int| 0 <= i < self.blocks@.len() ==> #[trigger] self.store.hash_of(i) == spec_block_hash(self.blocks@[i])
    }

    /// A fresh state holding only the genesis block.
    pub fn new() -> (r: ChainState)
        ensures
            r.wf(),
            r.store.len() == 1,
            r.store.score(0) == 0,
            r.store.nodes@[0].selected_parent is None,
            r.store.hash_of(0) == spec_block_hash(r.blocks@[0]),
            crate::block::is_genesis_block(r.blocks@[0]),
            r.store.hash_of(0) == crate::crypto::blake3_xof(crate::block::spec_genesis_identity(), 64),
            r.difficulty == BOOTSTRAP_MIN_DIFFICULTY,
            r.tips@.len() == 1 && r.tips@[0]@ == r.store.hash_of(0),
            r.main_chain@.len() == 1 && r.main_chain@[0]@ == r.store.hash_of(0),
            r.accounts@.len() == 0,
            r.staked@.len() == 0,
            r.total_supply == TOTAL_SUPPLY,
            r.minted_supply == 0,
            r.block_reward == BLOCK_REWARD,
            r.chain_id == CHAIN_ID,
            r.transparent_mempool@.len() == 0,
            r.fees_burned == 0,
            r.treasury == 0,
            r.pruned_selected_blocks == 0,
            !r.archival,
            r.pruning_point is None,
            r.tx_first_seen_blue@.len() == 0,
            r.fee_history.samples@.len() == 0,
            r.fee_history.max_blocks == 500,
            !r.lab_easy_pow,
    {
        let g = genesis_block();
        let h = g.hash();
        proof {
            crate::block::lemma_genesis_block_hash(g);
        }
        let mut store = DagStore::new();
        store.push_node(DagNode {
            hash: h,
            parents: Vec::new(),
            blue_score: 0,
            selected_parent: None,
            blues: Vec::new(),
            reds: Vec::new(),
        });
        let mut blocks: Vec<Block> = Vec::new();
        blocks.push(g);
        let mut tips: Vec<crate::hash::Hash> = Vec::new();
        tips.push(h);
        let mut main_chain: Vec<crate::hash::Hash> = Vec::new();
        main_chain.push(h);
        ChainState {
            store,
            blocks,
            tips,
            main_chain,
            accounts: Vec::new(),
            staked: Vec::new(),
            total_supply: TOTAL_SUPPLY,
            minted_supply: 0,
            block_reward: BLOCK_REWARD,
            difficulty: effective_min_difficulty(),
            chain_id: CHAIN_ID,
            transparent_mempool: Vec::new(),
            fees_burned: 0,
            treasury: 0,
            tor_nodes: Vec::new(),
            pruned_selected_blocks: 0,
            archival: false,
            pruning_point: None,
            tx_first_seen_ms: Vec::new(),
            tx_first_seen_blue: Vec::new(),
            fee_history: FeeRateHistory::default(),
            lab_easy_pow: false,
        }
    }

    /// Absolute height of the selected tip (genesis = 0).
    pub fn tip_height(&self) -> (r: u64)
        ensures
            r == ({
                let t = self.pruned_selected_blocks + self.main_chain@.len();
                let t2: int = if t > u64::MAX { u64::MAX as int } else { t };
                if t2 >= 1 { t2 - 1 } else { 0 }
            }),
    {
        let n = self.main_chain.len() as u64;
        self.pruned_selected_blocks.saturating_add(n).saturating_sub(1)
    }

    /// Blue score of the selected tip: the stored tip with the highest blue
    /// score (ties: larger hash); 0 when no tip is stored.
    pub fn selected_tip_blue_score(&self) -> (r: u64)
        requires
            self.store.wf(),
        ensures
            r == spec_tip_score(self.store, self.tips@),
    {
        let p = present_parent_indices(&self.store, self.tips.as_slice());
        if p.len() == 0 {
            return 0;
        }
        let t = select_parent_idx(&self.store, &p);
        proof {
            let c = choose|i: usize| is_best_of(self.store, p@, i);
            crate::ghostdag::lemma_best_unique(self.store, p@, c, t);
        }
        self.store.nodes[t].blue_score
    }

    /// Supply identity: account balances, stake and burned fees add up to the
    /// minted supply (sums saturate).
    pub fn supply_invariant_ok(&self) -> (r: bool)
        ensures
            r == (crate::chain::sat_u128(sum_balances(self.accounts@) + sum_staked(self.staked@) + self.fees_burned)
                == self.minted_supply),
    {
        let mut total: u128 = 0;
        let mut i: usize = 0;
        while i < self.accounts.len()
            invariant
                i <= self.accounts@.len(),
                total == sat_u128(sum_balances(self.accounts@.take(i as int)) as int),
            decreases self.accounts@.len() - i,
        {
            proof {
                let a = self.accounts@;
                assert(a.take(i + 1).drop_last() =~= a.take(i as int));
                assert(a.take(i + 1).last() == a[i as int]);
            }
            total = total.saturating_add(self.accounts[i].1.balance);
            i = i + 1;
        }
        let mut j: usize = 0;
        let ghost accts = sum_balances(self.accounts@);
        proof {
            assert(self.accounts@.take(self.accounts@.len() as int) =~= self.accounts@);
        }
        while j < self.staked.len()
            invariant
                j <= self.staked@.len(),
                total == sat_u128((accts + sum_staked(self.staked@.take(j as int))) as int),
            decreases self.staked@.len() - j,
        {
            proof {
                let a = self.staked@;
                assert(a.take(j + 1).drop_last() =~= a.take(j as int));
                assert(a.take(j + 1).last() == a[j as int]);
            }
            total = total.saturating_add(self.staked[j].1);
            j = j + 1;
        }
        proof {
            assert(self.staked@.take(self.staked@.len() as int) =~= self.staked@);
        }
        total = total.saturating_add(self.fees_burned);
        total == self.minted_supply
    }

    /// Approximate work units of a header (difficulty + 1, saturating).
    pub fn header_work_units(difficulty: u64) -> (r: u128)
        ensures
            r == difficulty + 1,
    {
        (difficulty as u128) + 1
    }

    /// Apply a transparent transfer to the balances. Account-to-account
    /// transfers are disabled by consensus (value moves through outputs), so
    /// every transfer is refused and nothing changes.
    pub fn apply_transparent_tx(&mut self, tx: &TransparentTx) -> (r: Result<(), String>)
        ensures
            r matches Err(e) && e@ == "Account peer transfers disabled (v27); use UTXO for value moves"@,
            *final(self) == *old(self),
    {
        Err(String::from_str("Account peer transfers disabled (v27); use UTXO for value moves"))
    }

    /// Admit a transparent transfer to the mempool. Account-to-account
    /// transfers are disabled by consensus, so every transfer is refused and
    /// the mempool is unchanged.
    pub fn admit_transparent_to_mempool(&mut self, tx: TransparentTx) -> (r: Result<(), String>)
        ensures
            r matches Err(e) && e@ == "Account peer transfers disabled (v27); use UTXO for value moves"@,
            *final(self) == *old(self),
    {
        Err(String::from_str("Account peer transfers disabled (v27); use UTXO for value moves"))
    }

    /// The minimum fee to be admitted right now given mempool congestion.
    pub fn current_min_relay_fee(&self) -> (r: u128)
        ensures
            r == spec_min_relay_fee_now(fees_of(self.transparent_mempool@), typical_floor()),
    {
        let floor = typical_signed_tx_min_fee();
        let len = self.transparent_mempool.len();
        let full = len >= MAX_MEMPOOL_SIZE;
        let hot = len >= 7500;
        if !full && !hot || len == 0 {
            return floor;
        }
        let mut f = self.transparent_mempool[0].fee;
        let mut i: usize = 1;
        proof {
            assert(fees_of(self.transparent_mempool@).take(1) =~= seq![f]);
        }
        while i < len
            invariant
                1 <= i <= len,
                len == self.transparent_mempool@.len(),
                f == min_fee_of(fees_of(self.transparent_mempool@).take(i as int)),
            decreases len - i,
        {
            let c = self.transparent_mempool[i].fee;
            proof {
                let fs = fees_of(self.transparent_mempool@);
                assert(fs.take(i + 1).drop_last() =~= fs.take(i as int));
                assert(fs.take(i + 1).last() == c);
            }
            if c < f {
                f = c;
            }
            i = i + 1;
        }
        proof {
            assert(fees_of(self.transparent_mempool@).take(len as int) =~= fees_of(self.transparent_mempool@));
        }
        let g: u128 = if full { f.saturating_add(1) } else { f };
        if g > floor { g } else { floor }
    }
}

/// A nonnegative number as a `u128`, saturating.
pub open spec fn sat_u128(x: int) -> u128 {
    if x > u128::MAX { u128::MAX } else { x as u128 }
}


/// Bytes of a typical signed transfer (key + signature + overhead).
pub const TYPICAL_TX_BYTES: u128 = 7731;

/// `a * b`, saturating.
pub open spec fn sat_mul(a: u128, b: u128) -> u128 {
    if a * b > u128::MAX { u128::MAX } else { (a * b) as u128 }
}

pub(crate) fn sat_mul_exec(a: u128, b: u128) -> (r: u128)
    ensures
        r == sat_mul(a, b),
{
    if b == 0 {
        return 0;
    }
    if a > u128::MAX / b {
        proof {
            assert(a * b > u128::MAX) by (nonlinear_arith)
                requires
                    a > u128::MAX / b,
                    b > 0,
            ;
        }
        u128::MAX
    } else {
        proof {
            assert(a * b <= u128::MAX) by (nonlinear_arith)
                requires
                    a <= u128::MAX / b,
                    b > 0,
            ;
        }
        a * b
    }
}

/// Ascending order on fees.
pub open spec fn fee_leq() -> spec_fn(u128, u128) -> bool {
    |a: u128, b: u128| a <= b
}

/// The fee of the mempool entry at rank `pct` percent (ascending fees),
/// floored; `None` for an empty pool.
pub open spec fn mempool_pick(fees: Seq<u128>, pct: nat, floor: u128) -> Option<u128> {
    if fees.len() == 0 {
        None
    } else {
        let sorted = fees.sort_by(fee_leq());
        let idx = ((fees.len() - 1) * pct) / 100;
        let f = sorted[idx];
        Some(if f >= floor { f } else { floor })
    }
}

/// The fees in ascending order.
pub(crate) fn sort_fees(fees: &Vec<u128>) -> (out: Vec<u128>)
    ensures
        out@ == fees@.sort_by(fee_leq()),
{
    let ghost leq = fee_leq();
    proof {
        assert(total_ordering(leq));
    }
    let mut out: Vec<u128> = Vec::new();
    let mut i: usize = 0;
    proof {
        assert(out@ =~= fees@.take(0));
    }
    while i < fees.len()
        invariant
            i <= fees@.len(),
            leq == fee_leq(),
            total_ordering(leq),
            sorted_by(out@, leq),
            out@.to_multiset() == fees@.take(i as int).to_multiset(),
        decreases fees@.len() - i,
    {
        let x = fees[i];
        let mut p: usize = 0;
        while p < out.len() && out[p] <= x
            invariant
                p <= out@.len(),
                leq == fee_leq(),
                forall|q: int| 0 <= q < p ==> #[trigger] leq(out@[q], x),
            decreases out@.len() - p,
        {
            p = p + 1;
        }
        proof {
            if p < out@.len() {
                assert(leq(x, out@[p as int]));
                assert forall|q: int| p <= q < out@.len() implies #[trigger] leq(x, out@[q]) by {
                    if q > p {
                        assert(leq(out@[p as int], out@[q]));
                    }
                }
            }
            crate::ghostdag::lemma_insert_sorted_u128(out@, p as int, x, leq);
            vstd::seq_lib::to_multiset_insert(out@, p as int, x);
            assert(fees@.take(i + 1) =~= fees@.take(i as int).push(x));
            vstd::seq_lib::to_multiset_build(fees@.take(i as int), x);
        }
        out.insert(p, x);
        i = i + 1;
    }
    proof {
        assert(fees@.take(fees@.len() as int) =~= fees@);
        fees@.lemma_sort_by_ensures(leq);
        vstd::seq_lib::lemma_sorted_unique(out@, fees@.sort_by(leq), leq);
    }
    out
}

/// The fees of the mempool entries.
fn mempool_fees(mp: &Vec<TransparentTx>) -> (r: Vec<u128>)
    ensures
        r@ == fees_of(mp@),
{
    let mut r: Vec<u128> = Vec::new();
    let mut i: usize = 0;
    while i < mp.len()
        invariant
            i <= mp@.len(),
            r@ == fees_of(mp@).take(i as int),
        decreases mp@.len() - i,
    {
        r.push(mp[i].fee);
        proof {
            assert(fees_of(mp@).take(i + 1) =~= fees_of(mp@).take(i as int).push(mp@[i as int].fee));
        }
        i = i + 1;
    }
    proof {
        assert(fees_of(mp@).take(mp@.len() as int) =~= fees_of(mp@));
    }
    r
}

/// The first recorded first-seen blue score of the transaction `h`.
pub open spec fn seen_of(seen: Seq<(crate::hash::Hash, u64)>, h: Seq<u8>) -> Option<u64>
    decreases seen.len(),
{
    if seen.len() == 0 {
        None
    } else if seen[0].0@ == h {
        Some(seen[0].1)
    } else {
        seen_of(seen.drop_first(), h)
    }
}

pub(crate) fn find_seen(seen: &Vec<(crate::hash::Hash, u64)>, h: &crate::hash::Hash) -> (r: Option<u64>)
    ensures
        r == seen_of(seen@, h@),
{
    let mut i: usize = 0;
    proof {
        assert(seen@.skip(0) =~= seen@);
    }
    while i < seen.len()
        invariant
            i <= seen@.len(),
            seen_of(seen@, h@) == seen_of(seen@.skip(i as int), h@),
        decreases seen@.len() - i,
    {
        proof {
            assert(seen@.skip(i as int).drop_first() =~= seen@.skip(i + 1));
            assert(seen@.skip(i as int)[0] == seen@[i as int]);
        }
        if seen[i].0.equals(h) {
            return Some(seen[i].1);
        }
        i = i + 1;
    }
    proof {
        assert(seen@.skip(i as int) =~= Seq::<(crate::hash::Hash, u64)>::empty());
    }
    None
}

/// Mempool transfers waiting longer than `target` blues since first seen,
/// as failed observations at their fee rate.
pub open spec fn extra_points(mp: Seq<TransparentTx>, seen: Seq<(crate::hash::Hash, u64)>, tip: u64, target: u64) -> Seq<(u128, bool)>
    decreases mp.len(),
{
    if mp.len() == 0 {
        Seq::empty()
    } else {
        let prev = extra_points(mp.drop_last(), seen, tip, target);
        let t = mp.last();
        match seen_of(seen, spec_tx_hash(t@)) {
            Some(sb) => {
                let lag: int = if tip >= sb { tip - sb } else { 0 };
                if lag > target {
                    let bytes: nat = if relay_bytes_usize(t@) >= 1 { relay_bytes_usize(t@) } else { 1 };
                    prev.push(((t.fee as nat / bytes) as u128, false))
                } else {
                    prev
                }
            },
            None => prev,
        }
    }
}

fn extra_exec(mp: &Vec<TransparentTx>, seen: &Vec<(crate::hash::Hash, u64)>, tip: u64, target: u64) -> (r: Vec<(u128, bool)>)
    ensures
        r@ == extra_points(mp@, seen@, tip, target),
{
    let mut r: Vec<(u128, bool)> = Vec::new();
    let mut i: usize = 0;
    while i < mp.len()
        invariant
            i <= mp@.len(),
            r@ == extra_points(mp@.take(i as int), seen@, tip, target),
        decreases mp@.len() - i,
    {
        let t = &mp[i];
        proof {
            assert(mp@.take(i + 1).drop_last() =~= mp@.take(i as int));
            assert(mp@.take(i + 1).last() == mp@[i as int]);
        }
        let h = t.tx_hash();
        match find_seen(seen, &h) {
            Some(sb) => {
                let lag = tip.saturating_sub(sb);
                if lag > target {
                    let rb = t.relay_bytes();
                    let bytes: usize = if rb >= 1 { rb } else { 1 };
                    r.push((t.fee / (bytes as u128), false));
                }
            },
            None => {},
        }
        i = i + 1;
    }
    proof {
        assert(mp@.take(mp@.len() as int) =~= mp@);
    }
    r
}

/// One tier of the estimate: the history success walk (converted to a fee
/// for a typical transfer and floored) when it yields a rate, otherwise the
/// mempool percentile, otherwise the floor.
pub open spec fn tier_value(hist: Option<u128>, pick: Option<u128>, floor: u128) -> u128 {
    match hist {
        Some(rate) => {
            let f = sat_mul(rate, TYPICAL_TX_BYTES);
            if f >= floor { f } else { floor }
        },
        None => match pick {
            Some(p) => p,
            None => floor,
        },
    }
}

/// The larger of two fees.
pub open spec fn fee_max(a: u128, b: u128) -> u128 {
    if a >= b { a } else { b }
}


/// The pool holds a transfer from `from` with nonce `n`.
pub open spec fn has_tx(mp: Seq<TransparentTx>, from: Seq<char>, n: u64) -> bool {
    exists|i: int| 0 <= i < mp.len() && #[trigger] mp[i].from@ == from && mp[i].nonce == n
}

/// Position `i` holds the first transfer of its sender.
pub open spec fn first_of_sender(mp: Seq<TransparentTx>, i: int) -> bool {
    forall|j: int| 0 <= j < i ==> #[trigger] mp[j].from@ != mp[i].from@
}

/// Number of senders among the first `k` positions whose nonce chain from
/// the account's next nonce is present (an includable package).
pub open spec fn package_count_upto(mp: Seq<TransparentTx>, accts: Seq<(String, Account)>, k: int) -> nat
    decreases k,
{
    if k <= 0 {
        0
    } else {
        package_count_upto(mp, accts, k - 1) + if first_of_sender(mp, k - 1) && has_tx(
            mp,
            mp[k - 1].from@,
            nonce_of(accts, mp[k - 1].from@),
        ) {
            1nat
        } else {
            0nat
        }
    }
}

/// The fee of the last queued transfer from `from` with nonce `n`.
fn last_fee_for(mp: &Vec<TransparentTx>, from: &String, n: u64) -> (r: Option<u128>)
    ensures
        r is Some <==> has_tx(mp@, from@, n),
{
    let mut r: Option<u128> = None;
    let mut i: usize = 0;
    while i < mp.len()
        invariant
            i <= mp@.len(),
            r is Some <==> exists|j: int| 0 <= j < i && #[trigger] mp@[j].from@ == from@ && mp@[j].nonce == n,
        decreases mp@.len() - i,
    {
        if mp[i].nonce == n && mp[i].from == *from {
            r = Some(mp[i].fee);
        }
        i = i + 1;
    }
    r
}

fn is_first_of_sender(mp: &Vec<TransparentTx>, i: usize) -> (r: bool)
    requires
        i < mp@.len(),
    ensures
        r == first_of_sender(mp@, i as int),
{
    let mut j: usize = 0;
    while j < i
        invariant
            j <= i,
            i < mp@.len(),
            forall|q: int| 0 <= q < j ==> #[trigger] mp@[q].from@ != mp@[i as int].from@,
        decreases i - j,
    {
        if mp[j].from == mp[i].from {
            return false;
        }
        j = j + 1;
    }
    true
}

impl ChainState {
    /// Number of includable ancestor packages (senders whose queued nonce
    /// chain starts at the account's next nonce) and the total fee of the
    /// best package prefix (highest fee rate per transfer, then highest fee).
    pub fn mempool_package_stats(&self) -> (r: (usize, u128))
        ensures
            r.0 == package_count_upto(self.transparent_mempool@, self.accounts@, self.transparent_mempool@.len() as int),
            self.transparent_mempool@.len() == 0 ==> r.1 == 0,
    {
        let mp = &self.transparent_mempool;
        let len = mp.len();
        let mut count: usize = 0;
        let mut best_fee: u128 = 0;
        let mut best_len: usize = 1;
        let mut i: usize = 0;
        while i < len
            invariant
                i <= len,
                len == mp@.len(),
                *mp == self.transparent_mempool,
                count as nat == package_count_upto(mp@, self.accounts@, i as int),
                count <= i,
                best_len >= 1,
                i == 0 ==> best_fee == 0,
            decreases len - i,
        {
            let from = &mp[i].from;
            if is_first_of_sender(mp, i) {
                let tip = match find_account(&self.accounts, from) {
                    Some(a) => a.nonce,
                    None => 0,
                };
                let mut n = tip;
                let mut running: u128 = 0;
                let mut k: usize = 0;
                let mut done = false;
                while !done && k < len
                    invariant
                        k <= len,
                        len == mp@.len(),
                        best_len >= 1,
                        k == 0 ==> n == tip,
                    decreases len - k + if done { 0int } else { 1int },
                {
                    match last_fee_for(mp, from, n) {
                        Some(fee) => {
                            running = running.saturating_add(fee);
                            k = k + 1;
                            let a = sat_mul_exec(running, best_len as u128);
                            let b = sat_mul_exec(best_fee, k as u128);
                            if a > b || (a == b && running > best_fee) {
                                best_fee = running;
                                best_len = k;
                            }
                            n = n.saturating_add(1);
                        },
                        None => {
                            done = true;
                        },
                    }
                }
                let has = last_fee_for(mp, from, tip);
                if has.is_some() {
                    count = count + 1;
                }
            }
            i = i + 1;
        }
        (count, best_fee)
    }
}


/// Observations for the history walk at `target`: recorded samples plus
/// the mempool waiters that already missed the target.
pub open spec fn tier_points(s: ChainState, tip: u64, target: u64) -> Seq<(u128, bool)> {
    history_points(s.fee_history.samples@, target) + extra_points(s.transparent_mempool@, s.tx_first_seen_blue@, tip, target)
}

/// The tiers of [`ChainState::estimate_fee`].
pub open spec fn spec_estimate_tiers(s: ChainState, r: FeeEstimate) -> bool {
    let fees = fees_of(s.transparent_mempool@);
    let floor = spec_min_relay_fee_now(fees, typical_floor());
    let tip = spec_tip_score(s.store, s.tips@) as u64;
    exists|hl: Option<u128>, hm: Option<u128>, hh: Option<u128>|
        #![trigger walk_result(tier_points(s, tip, FEE_TARGET_LOW_BLUES), hl), walk_result(tier_points(s, tip, FEE_TARGET_MEDIUM_BLUES), hm), walk_result(tier_points(s, tip, FEE_TARGET_HIGH_BLUES), hh)]
        {
            &&& walk_result(tier_points(s, tip, FEE_TARGET_LOW_BLUES), hl)
            &&& walk_result(tier_points(s, tip, FEE_TARGET_MEDIUM_BLUES), hm)
            &&& walk_result(tier_points(s, tip, FEE_TARGET_HIGH_BLUES), hh)
            &&& r.low == tier_value(hl, mempool_pick(fees, 10, floor), floor)
            &&& r.medium == fee_max(tier_value(hm, mempool_pick(fees, 50, floor), floor), r.low)
            &&& r.high == fee_max(tier_value(hh, mempool_pick(fees, 90, floor), floor), r.medium)
        }
}

impl ChainState {
    fn pick_exec(sorted: &Vec<u128>, pct: usize, floor: u128, Ghost(fees): Ghost<Seq<u128>>) -> (r: u128)
        requires
            sorted@ == fees.sort_by(fee_leq()),
            fees.len() * 100 <= usize::MAX,
            pct <= 100,
        ensures
            r == match mempool_pick(fees, pct as nat, floor) {
                Some(p) => p,
                None => floor,
            },
            r >= floor,
    {
        proof {
            fees.lemma_sort_by_ensures(fee_leq());
            vstd::seq_lib::to_multiset_len(fees);
            vstd::seq_lib::to_multiset_len(sorted@);
        }
        let n = sorted.len();
        if n == 0 {
            return floor;
        }
        proof {
            assert((n - 1) * pct <= (n - 1) * 100) by (nonlinear_arith)
                requires
                    pct <= 100,
                    n >= 1,
            ;
            assert(((n - 1) * pct) / 100 < n) by (nonlinear_arith)
                requires
                    pct <= 100,
                    n >= 1,
            ;
        }
        let idx = ((n - 1) * pct) / 100;
        let f = sorted[idx];
        if f >= floor { f } else { floor }
    }

    fn tier_exec(&self, target: u64, pct: usize, floor: u128, tip: u64, sorted: &Vec<u128>) -> (r: u128)
        requires
            sorted@ == fees_of(self.transparent_mempool@).sort_by(fee_leq()),
            self.transparent_mempool@.len() * 100 <= usize::MAX,
            pct <= 100,
        ensures
            exists|h: Option<u128>| #[trigger] walk_result(tier_points(*self, tip, target), h)
                && r == tier_value(h, mempool_pick(fees_of(self.transparent_mempool@), pct as nat, floor), floor),
            r >= floor,
    {
        let extra = extra_exec(&self.transparent_mempool, &self.tx_first_seen_blue, tip, target);
        let h = self.fee_history.estimate_for_target_with_extra(target, extra.as_slice());
        proof {
            assert(walk_result(tier_points(*self, tip, target), h));
        }
        match h {
            Some(rate) => {
                let f = sat_mul_exec(rate, TYPICAL_TX_BYTES);
                if f >= floor { f } else { floor }
            },
            None => Self::pick_exec(sorted, pct, floor, Ghost(fees_of(self.transparent_mempool@))),
        }
    }

    /// Confirmation-target fee estimate: for each target (about 6, 20 and
    /// 100 blues) the history success walk, counting mempool waiters past the
    /// target as failures, converted to a fee for a typical signed transfer;
    /// otherwise the mempool percentile (90th, 50th, 10th); otherwise the relay
    /// floor. Tiers are forced monotone (`high ≥ medium ≥ low`).
    pub fn estimate_fee(&self) -> (r: FeeEstimate)
        requires
            self.store.wf(),
            self.transparent_mempool@.len() * 100 <= usize::MAX,
        ensures
            spec_estimate_tiers(*self, r),
            r.high >= r.medium,
            r.medium >= r.low,
            r.low >= spec_min_relay_fee_now(fees_of(self.transparent_mempool@), typical_floor()),
            r.mempool_txs == self.transparent_mempool@.len(),
            r.package_count == package_count_upto(self.transparent_mempool@, self.accounts@, self.transparent_mempool@.len() as int),
            self.transparent_mempool@.len() == 0 ==> r.best_package_fee == 0,
            r.high_target_blues == FEE_TARGET_HIGH_BLUES,
            r.medium_target_blues == FEE_TARGET_MEDIUM_BLUES,
            r.low_target_blues == FEE_TARGET_LOW_BLUES,
    {
        let floor = self.current_min_relay_fee();
        let (package_count, best_package_fee) = self.mempool_package_stats();
        let tip = self.selected_tip_blue_score();
        let fees = mempool_fees(&self.transparent_mempool);
        let sorted = sort_fees(&fees);
        let low = self.tier_exec(FEE_TARGET_LOW_BLUES, 10, floor, tip, &sorted);
        let mut medium = self.tier_exec(FEE_TARGET_MEDIUM_BLUES, 50, floor, tip, &sorted);
        let mut high = self.tier_exec(FEE_TARGET_HIGH_BLUES, 90, floor, tip, &sorted);
        let ghost m0 = medium;
        let ghost h0 = high;
        if medium < low {
            medium = low;
        }
        if high < medium {
            high = medium;
        }
        let r = FeeEstimate {
            low,
            medium,
            high,
            mempool_txs: self.transparent_mempool.len(),
            package_count,
            best_package_fee,
            high_target_blues: FEE_TARGET_HIGH_BLUES,
            medium_target_blues: FEE_TARGET_MEDIUM_BLUES,
            low_target_blues: FEE_TARGET_LOW_BLUES,
        };
        proof {
            let fs = fees_of(self.transparent_mempool@);
            let hl = choose|h: Option<u128>| #[trigger] walk_result(tier_points(*self, tip, FEE_TARGET_LOW_BLUES), h)
                && low == tier_value(h, mempool_pick(fs, 10, floor), floor);
            let hm = choose|h: Option<u128>| #[trigger] walk_result(tier_points(*self, tip, FEE_TARGET_MEDIUM_BLUES), h)
                && m0 == tier_value(h, mempool_pick(fs, 50, floor), floor);
            let hh = choose|h: Option<u128>| #[trigger] walk_result(tier_points(*self, tip, FEE_TARGET_HIGH_BLUES), h)
                && h0 == tier_value(h, mempool_pick(fs, 90, floor), floor);
            assert(r.low == tier_value(hl, mempool_pick(fs, 10, floor), floor));
            assert(r.medium == fee_max(tier_value(hm, mempool_pick(fs, 50, floor), floor), r.low));
            assert(r.high == fee_max(tier_value(hh, mempool_pick(fs, 90, floor), floor), r.medium));
            assert(tip == spec_tip_score(self.store, self.tips@) as u64);
            assert(floor == spec_min_relay_fee_now(fs, typical_floor()));
            assert(walk_result(tier_points(*self, tip, FEE_TARGET_LOW_BLUES), hl));
            assert(walk_result(tier_points(*self, tip, FEE_TARGET_MEDIUM_BLUES), hm));
            assert(walk_result(tier_points(*self, tip, FEE_TARGET_HIGH_BLUES), hh));
        }
        r
    }
}


/// The contents of a list of transfers.
pub open spec fn tx_views(txs: Seq<TransparentTx>) -> Seq<crate::tx::TxView> {
    txs.map_values(|t: TransparentTx| t@)
}

/// Balance of `a` after replaying `txs` on the accounts (the recipient is
/// credited with its balance read before the sender was debited).
pub open spec fn bal_after(accts: Seq<(String, Account)>, txs: Seq<crate::tx::TxView>, a: Seq<char>) -> int
    decreases txs.len(),
{
    if txs.len() == 0 {
        balance_of(accts, a) as int
    } else {
        let prev = txs.drop_last();
        let t = txs.last();
        if a == t.to {
            bal_after(accts, prev, t.to) + t.amount
        } else if a == t.from {
            bal_after(accts, prev, t.from) - (t.amount + t.fee)
        } else {
            bal_after(accts, prev, a)
        }
    }
}

/// Next nonce of `a` after replaying `txs` (saturating).
pub open spec fn nonce_after(accts: Seq<(String, Account)>, txs: Seq<crate::tx::TxView>, a: Seq<char>) -> int
    decreases txs.len(),
{
    if txs.len() == 0 {
        nonce_of(accts, a) as int
    } else {
        let prev = nonce_after(accts, txs.drop_last(), a);
        if a == txs.last().from {
            if prev < u64::MAX { prev + 1 } else { prev }
        } else {
            prev
        }
    }
}

/// `t` may follow `txs`: its nonce is the sender's next nonce, amount plus
/// fee fits and is covered, and the recipient's balance does not overflow.
pub open spec fn step_ok(accts: Seq<(String, Account)>, txs: Seq<crate::tx::TxView>, t: crate::tx::TxView) -> bool {
    &&& t.nonce == nonce_after(accts, txs, t.from)
    &&& t.amount + t.fee <= u128::MAX
    &&& bal_after(accts, txs, t.from) >= t.amount + t.fee
    &&& bal_after(accts, txs, t.to) + t.amount <= u128::MAX
}

/// Every transfer of `txs` may follow the ones before it.
pub open spec fn replay_ok(accts: Seq<(String, Account)>, txs: Seq<crate::tx::TxView>) -> bool
    decreases txs.len(),
{
    txs.len() == 0 || (replay_ok(accts, txs.drop_last()) && step_ok(accts, txs.drop_last(), txs.last()))
}

/// Replayed balances stay within `u128`.
pub(crate) proof fn lemma_bal_after_range(accts: Seq<(String, Account)>, txs: Seq<crate::tx::TxView>, a: Seq<char>)
    requires
        replay_ok(accts, txs),
    ensures
        0 <= bal_after(accts, txs, a) <= u128::MAX,
        0 <= nonce_after(accts, txs, a) <= u64::MAX,
    decreases txs.len(),
{
    if txs.len() > 0 {
        let prev = txs.drop_last();
        let t = txs.last();
        lemma_bal_after_range(accts, prev, a);
        lemma_bal_after_range(accts, prev, t.to);
        lemma_bal_after_range(accts, prev, t.from);
    }
}

/// Balance and next nonce of `addr` after replaying `txs` on the accounts.
pub(crate) fn state_after(accts: &Vec<(String, Account)>, txs: &Vec<TransparentTx>, addr: &String) -> (r: (u128, u64))
    requires
        replay_ok(accts@, tx_views(txs@)),
    ensures
        r.0 as int == bal_after(accts@, tx_views(txs@), addr@),
        r.1 as int == nonce_after(accts@, tx_views(txs@), addr@),
{
    let base = find_account(accts, addr);
    let mut bal: u128 = match base {
        Some(a) => a.balance,
        None => 0,
    };
    let mut nonce: u64 = match base {
        Some(a) => a.nonce,
        None => 0,
    };
    let mut i: usize = 0;
    proof {
        assert(tx_views(txs@).take(0) =~= Seq::<crate::tx::TxView>::empty());
    }
    while i < txs.len()
        invariant
            i <= txs@.len(),
            replay_ok(accts@, tx_views(txs@)),
            bal as int == bal_after(accts@, tx_views(txs@).take(i as int), addr@),
            nonce as int == nonce_after(accts@, tx_views(txs@).take(i as int), addr@),
        decreases txs@.len() - i,
    {
        let t = &txs[i];
        let ghost pre = tx_views(txs@).take(i as int);
        proof {
            let v = tx_views(txs@);
            assert(v.take(i + 1).drop_last() =~= pre);
            assert(v.take(i + 1).last() == t@);
            lemma_replay_prefix(accts@, v, i + 1);
            assert(replay_ok(accts@, v.take(i + 1)));
            assert(step_ok(accts@, pre, t@));
            lemma_bal_after_range(accts@, v.take(i + 1), addr@);
            lemma_bal_after_range(accts@, pre, addr@);
        }
        if t.to == *addr {
            bal = bal + t.amount;
        } else if t.from == *addr {
            bal = bal - (t.amount + t.fee);
        }
        if t.from == *addr {
            nonce = nonce.saturating_add(1);
        }
        i = i + 1;
    }
    proof {
        assert(tx_views(txs@).take(txs@.len() as int) =~= tx_views(txs@));
    }
    (bal, nonce)
}

/// A replayable sequence has replayable prefixes.
pub(crate) proof fn lemma_replay_prefix(accts: Seq<(String, Account)>, v: Seq<crate::tx::TxView>, k: int)
    requires
        replay_ok(accts, v),
        0 <= k <= v.len(),
    ensures
        replay_ok(accts, v.take(k)),
    decreases v.len() - k,
{
    if k < v.len() {
        lemma_replay_prefix(accts, v, k + 1);
        assert(v.take(k + 1).drop_last() =~= v.take(k));
    } else {
        assert(v.take(k) =~= v);
    }
}

} // verus!
