//! The outgoing calls a contract method asks the runtime to make.
use vstd::prelude::*;

verus! {

/// One yoctoNEAR, attached to NFT transfers as the NFT standard asks.
pub const ONE_YOCTO: u128 = 1;

/// Ten teragas, the static gas given to each NFT call.
pub const NFT_CALL_GAS: u64 = 10_000_000_000_000;

/// A cross-contract call or transfer that the contract returns as its promise.
#[derive(Debug, PartialEq, Eq)]
pub enum PromiseAction {
    /// Send `amount` yoctoNEAR to `receiver_id`.
    Transfer { receiver_id: String, amount: u128 },
    /// Call `nft_transfer(receiver_id, token_id, None)` on `nft_contract_id`.
    NftTransfer {
        nft_contract_id: String,
        receiver_id: String,
        token_id: String,
        deposit: u128,
        gas: u64,
    },
    /// Call `nft_transfer_call(receiver_id, token_id, msg, None)` on `nft_contract_id`.
    NftTransferCall {
        nft_contract_id: String,
        receiver_id: String,
        token_id: String,
        msg: String,
        deposit: u128,
        gas: u64,
    },
}

} // verus!
