//! Transfer submission requests and responses.
use vstd::prelude::*;
use vstd::string::StringExecFns;
use crate::bytes::hex_decode;
use crate::chain::ChainState;
use crate::genesis::{ACCOUNT_PEER_TRANSFERS, MIN_TX_FEE};
use crate::tx::TransparentTx;

verus! {

/// A transparent transfer signed by the client: hex public key and signature.
#[derive(Clone, Debug)]
pub struct TxSubmitRequest {
    pub from_pubkey: String,
    pub to: String,
    pub amount: u128,
    /// Burned fee (`MIN_TX_FEE` when the request leaves it out).
    pub fee: u128,
    pub nonce: u64,
    pub chain_id: u64,
    pub signature: String,
}

/// The id and status of an accepted submission.
#[derive(Clone, Debug)]
pub struct TxSubmitResponse {
    pub tx_hash: String,
    pub status: String,
}

/// The fee of a request that names none.
pub fn default_fee() -> (r: u128)
    ensures
        r == MIN_TX_FEE,
{
    MIN_TX_FEE
}

/// Submit a transfer to the mempool of `state`. Account-to-account transfers
/// are disabled by consensus, so every request is refused with a pointer to
/// UTXO spends and the state is unchanged.
pub fn submit_tx(state: &mut ChainState, req: TxSubmitRequest) -> (r: Result<TxSubmitResponse, String>)
    ensures
        r matches Err(e) && e@ == "Account peer transfers disabled (v27); submit a UTXO spend via /api/v1/utxo/submit"@,
        *final(state) == *old(state),
{
    if !ACCOUNT_PEER_TRANSFERS {
        return Err(String::from_str("Account peer transfers disabled (v27); submit a UTXO spend via /api/v1/utxo/submit"));
    }
    let from_pubkey = match hex_decode(req.from_pubkey.as_str().as_bytes()) {
        Some(v) => v,
        None => {
            return Err(String::from_str("Invalid from_pubkey hex"));
        },
    };
    let signature = match hex_decode(req.signature.as_str().as_bytes()) {
        Some(v) => v,
        None => {
            return Err(String::from_str("Invalid signature hex"));
        },
    };
    let mut tx = TransparentTx::new_with_fee(from_pubkey, req.to, req.amount, req.fee, req.nonce, req.chain_id);
    tx.signature = signature;
    let tx_hash = tx.tx_hash();
    match state.admit_transparent_to_mempool(tx) {
        Ok(()) => Ok(TxSubmitResponse {
            tx_hash: crate::economics::hash_hex(&tx_hash),
            status: String::from_str("pending"),
        }),
        Err(e) => Err(e),
    }
}

} // verus!
