//! Plain argument types of the transaction emitter: the transaction kind
//! selection and the emission parameters. The CLI layer that fills them in
//! lives outside the verified library.

use vstd::prelude::*;

verus! {

/// The kind of transactions to emit.
#[derive(Clone, Copy, Debug, PartialEq, Eq, Structural)]
pub enum TransactionTypeArg {
    CoinTransfer,
    AccountGeneration,
    AccountGenerationLargePool,
    NftMintAndTransfer,
    PublishPackage,
    CustomFunctionLargeModuleWorkingSet,
    CreateNewResource,
    NoOp,
}

impl Default for TransactionTypeArg {
    /// Coin transfers are emitted when no kind is chosen.
    fn default() -> (r: Self)
        ensures
            r == TransactionTypeArg::CoinTransfer,
    {
        TransactionTypeArg::CoinTransfer
    }
}

/// Parameters of one transaction emission run. Exactly one of
/// `mempool_backlog` and `target_tps` is meant to be set.
#[derive(Clone, Debug)]
pub struct EmitArgs {
    /// Number of transactions outstanding in mempool, to keep the emitter
    /// producing enough load; unset if `target_tps` is used.
    pub mempool_backlog: Option<usize>,
    /// Target constant transactions per second; unset if `mempool_backlog`
    /// is used.
    pub target_tps: Option<usize>,
    /// Expiration time of emitted transactions, in seconds.
    pub txn_expiration_time_secs: u64,
    /// Time to emit transactions for, in seconds.
    pub duration: u64,
    /// Percentage of invalid transactions.
    pub invalid_tx: usize,
    /// The kinds of transactions to emit.
    pub transaction_type: Vec<TransactionTypeArg>,
    /// The relative weight of each transaction kind.
    pub transaction_weights: Vec<usize>,
    /// The phase each transaction kind belongs to.
    pub transaction_phases: Vec<usize>,
    /// Gas price for emitted transactions, if overridden.
    pub gas_price: Option<u64>,
    /// Max gas per transaction, if overridden.
    pub max_gas_per_txn: Option<u64>,
    /// Multiplier on the gas price during initialization, if overridden.
    pub init_gas_price_multiplier: Option<u64>,
    /// Expected upper bound on emitted transactions, if known.
    pub expected_max_txns: Option<u64>,
    /// Expected gas per transaction, if known.
    pub expected_gas_per_txn: Option<u64>,
    /// Cap on the transactions sent from one account, if any.
    pub max_transactions_per_account: Option<usize>,
    /// Delay after the minting phase, for runs spread over several machines.
    pub delay_after_minting: Option<u64>,
}

} // verus!
