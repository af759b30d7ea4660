//! Parameters of the Polkadot <-> Kusama message-lane bridge.
//!
//! The bridge glue — storage-key derivation, proof verification, fee
//! polynomials — lives with the bridge framework and the runtime around
//! it.  What stands here is the plain-value part: the two chain-endpoint
//! markers, the bridge pairing, and the weight-limit arithmetic for
//! messages relayed to the bridged chain.

use vstd::prelude::*;

verus! {

/// Share of the message fee that rewards the relayer, in percent.
pub const RELAYER_FEE_PERCENT: u32 = 10;

/// The Polkadot chain, from the message-lane point of view.
#[derive(Clone, Copy, Debug)]
pub struct Polkadot;

/// The Kusama chain, from the message-lane point of view.
#[derive(Clone, Copy, Debug)]
pub struct Kusama;

/// The Polkadot <-> Kusama message bridge.
#[derive(Clone, Copy, Debug)]
pub struct WithKusamaMessageBridge;

impl WithKusamaMessageBridge {
    /// The weight window allowed for one message on the bridged chain:
    /// at least the payload's length in bytes, at most half of the
    /// largest extrinsic weight the bridged chain accepts (no limit on
    /// record caps the upper bound at half the weight range), keeping
    /// reserve for future upgrades.
    pub fn weight_limits_of_message_on_bridged_chain(
        max_extrinsic_weight: Option<u64>,
        payload_len: usize,
    ) -> (r: (u64, u64))
        ensures
            r.0 == payload_len as u64,
            r.1 == match max_extrinsic_weight {
                Some(w) => w / 2,
                None => u64::MAX / 2,
            },
    {
        let upper_limit = match max_extrinsic_weight {
            Some(w) => w / 2,
            None => u64::MAX / 2,
        };
        let lower_limit = payload_len as u64;
        (lower_limit, upper_limit)
    }

    /// One balance unit of this chain counts as one of the bridged chain.
    pub fn this_balance_to_bridged_balance(this_balance: u64) -> (r: u64)
        ensures
            r == this_balance,
    {
        this_balance
    }
}

} // verus!
