//! The decisions of the strategy: what to do with each event, the
//! transaction to simulate, whether the simulation is worth a bundle, and
//! the price and gas of the transaction sent.

use vstd::prelude::*;
use crate::address::Address;
use crate::block_state::{BlockInfo, BlockState};
use crate::simulator::{BalanceChanges, owner_has_changes};

verus! {

/// Default maximum priority fee per gas: 1 gwei, in wei.
pub const DEFAULT_MAX_PRIORITY_FEE: u128 = 1_000_000_000;

/// What the strategy sends: the target contract, the calldata, and the
/// maximum priority fee per gas in wei.
#[derive(Clone, Debug)]
pub struct Config {
    pub contract_address: Address,
    pub calldata: Vec<u8>,
    pub max_priority_fee: u128,
}

/// A transaction request, with the fields the strategy fills.
#[derive(Clone, Debug)]
pub struct TxRequest {
    pub from: Option<Address>,
    pub to: Option<Address>,
    pub input: Vec<u8>,
    pub nonce: Option<u64>,
    pub max_fee_per_gas: Option<u128>,
    pub max_priority_fee_per_gas: Option<u128>,
    pub gas_limit: Option<u64>,
}

/// A transaction to send in a bundle for a given block.
#[derive(Clone, Debug)]
pub struct BundleRequest {
    pub tx: TxRequest,
    pub block: u64,
}

/// Why no transaction is built for a block.
#[derive(Clone, Copy, Debug, PartialEq, Eq, Structural)]
pub enum StrategyError {
    /// The simulated call changed no balance of the target contract.
    NoBalanceChanges,
}

/// An event for the strategy: a new block's header, or the hash of a
/// pending transaction.
#[derive(Clone, Copy, Debug)]
pub enum Event {
    Block(BlockInfo),
    Transaction([u8; 32]),
}

/// An action of the strategy: a bundle to send, or a transaction hash to
/// echo.
#[derive(Clone, Debug)]
pub enum Action {
    SendToBundle(BundleRequest),
    EchoTransaction([u8; 32]),
}

/// What the strategy does with an event.
#[derive(Clone, Debug)]
pub enum Reaction {
    /// Simulate and build the transaction for this block, then send it in a
    /// bundle.
    BuildFor(BlockInfo),
    /// Take this action at once.
    Act(Action),
}

/// The gas limit for a call that used `gas_used` in simulation: 10/7 of it,
/// rounded down.
pub open spec fn spec_gas_limit(gas_used: u64) -> int {
    gas_used as int * 10 / 7
}

/// The gas limit is ten sevenths of the gas used, rounded down: seven times
/// it is at most ten times the gas used, and seven times the next integer
/// is more; it fits in 64 bits whenever ten times the gas used does.
pub proof fn lemma_gas_limit_is_ten_sevenths(gas_used: u64)
    ensures
        7 * spec_gas_limit(gas_used) <= 10 * gas_used < 7 * (spec_gas_limit(gas_used) + 1),
        0 <= spec_gas_limit(gas_used) <= 10 * gas_used,
{
    assert(7 * ((gas_used as int * 10) / 7) <= gas_used as int * 10 < 7 * ((gas_used as int * 10) / 7 + 1))
        by (nonlinear_arith);
}

/// The strategy's state: the blocks seen, its configuration and the sender.
pub struct Strategy {
    block_state: BlockState,
    config: Config,
    sender: Address,
}

impl Strategy {
    /// The configuration.
    pub closed spec fn config(&self) -> Config {
        self.config
    }

    /// The sending account.
    pub closed spec fn sender(&self) -> Address {
        self.sender
    }

    /// The latest block seen.
    pub closed spec fn latest(&self) -> BlockInfo {
        self.block_state.latest()
    }

    /// A strategy that sends `config`'s call from `sender`, before any block.
    pub fn new(config: Config, sender: Address) -> (r: Self)
        ensures
            r.config() == config,
            r.sender() == sender,
            r.latest() == crate::block_state::spec_default_block(),
    {
        Strategy { config, block_state: BlockState::new(), sender }
    }

    /// Records a new block as the latest and returns the block expected
    /// next, which the transaction is built for.
    pub fn on_block(&mut self, block: BlockInfo) -> (r: BlockInfo)
        requires
            block.has_next(),
        ensures
            final(self).latest() == block,
            final(self).config() == old(self).config(),
            final(self).sender() == old(self).sender(),
            r == block.spec_next(),
    {
        self.block_state.update_block_info(block);
        self.block_state.get_next_block()
    }

    /// The block expected next.
    pub fn next_block(&self) -> (r: BlockInfo)
        ensures
            r == self.latest().spec_next(),
    {
        self.block_state.get_next_block()
    }

    /// Handles an event: a new block becomes the latest and the transaction
    /// is to be built for the block expected after it; a pending
    /// transaction's hash is echoed, and nothing changes.
    pub fn process_event(&mut self, event: Event) -> (r: Reaction)
        requires
            event matches Event::Block(b) ==> b.has_next(),
        ensures
            final(self).config() == old(self).config(),
            final(self).sender() == old(self).sender(),
            match event {
                Event::Block(b) => final(self).latest() == b && r == Reaction::BuildFor(b.spec_next()),
                Event::Transaction(h) => final(self).latest() == old(self).latest() && r
                    == Reaction::Act(Action::EchoTransaction(h)),
            },
    {
        match event {
            Event::Block(block) => {
                let next = self.on_block(block);
                Reaction::BuildFor(next)
            },
            Event::Transaction(hash) => Reaction::Act(Action::EchoTransaction(hash)),
        }
    }

    /// The call to simulate: the configured calldata, from the sender, to
    /// the configured contract, with nothing else set.
    pub fn simulation_request(&self) -> (r: TxRequest)
        ensures
            r.from == Some(self.sender()),
            r.to == Some(self.config().contract_address),
            r.input@ == self.config().calldata@,
            r.nonce is None,
            r.max_fee_per_gas is None,
            r.max_priority_fee_per_gas is None,
            r.gas_limit is None,
    {
        TxRequest {
            from: Some(self.sender),
            to: Some(self.config.contract_address),
            input: copy_bytes(&self.config.calldata),
            nonce: None,
            max_fee_per_gas: None,
            max_priority_fee_per_gas: None,
            gas_limit: None,
        }
    }

    /// The simulation is worth a transaction only when it changed some
    /// balance of the target contract.
    pub fn check_simulation(&self, balance_changes: &BalanceChanges) -> (r: Result<(), StrategyError>)
        ensures
            r is Ok <==> owner_has_changes(balance_changes@, self.config().contract_address@),
            r is Err ==> r == Err::<(), StrategyError>(StrategyError::NoBalanceChanges),
    {
        if balance_changes.has_changes_for(self.config.contract_address) {
            Ok(())
        } else {
            Err(StrategyError::NoBalanceChanges)
        }
    }

    /// The transaction to send for `next_block`: the simulated request with
    /// the nonce, a maximum fee of the next base fee plus the configured
    /// priority fee (used as the priority fee too), and 10/7 of the gas the
    /// simulation used.
    pub fn finalize_tx(&self, tx: TxRequest, nonce: u64, next_block: BlockInfo, gas_used: u64) -> (r:
        TxRequest)
        requires
            next_block.base_fee_per_gas as int + self.config().max_priority_fee as int <= u128::MAX,
            gas_used as int * 10 <= u64::MAX,
        ensures
            r.from == tx.from,
            r.to == tx.to,
            r.input@ == tx.input@,
            r.nonce == Some(nonce),
            r.max_fee_per_gas == Some(
                (next_block.base_fee_per_gas as int + self.config().max_priority_fee as int) as u128,
            ),
            r.max_priority_fee_per_gas == r.max_fee_per_gas,
            r.gas_limit == Some(spec_gas_limit(gas_used) as u64),
            r.gas_limit matches Some(g) && 7 * g <= 10 * gas_used < 7 * (g + 1),
    {
        proof {
            lemma_gas_limit_is_ten_sevenths(gas_used);
        }
        let max_fee_per_gas = next_block.base_fee_per_gas as u128 + self.config.max_priority_fee;
        TxRequest {
            from: tx.from,
            to: tx.to,
            input: tx.input,
            nonce: Some(nonce),
            max_fee_per_gas: Some(max_fee_per_gas),
            max_priority_fee_per_gas: Some(max_fee_per_gas),
            gas_limit: Some(gas_used * 10 / 7),
        }
    }
}

/// The bundle request for `tx` in `next_block`.
pub fn bundle_request(tx: TxRequest, next_block: BlockInfo) -> (r: BundleRequest)
    ensures
        r.tx == tx,
        r.block == next_block.number,
{
    BundleRequest { tx, block: next_block.number }
}

/// A copy of some bytes.
pub(crate) fn copy_bytes(v: &Vec<u8>) -> (r: Vec<u8>)
    ensures
        r@ == v@,
{
    let mut r: Vec<u8> = Vec::new();
    let mut i: usize = 0;
    while i < v.len()
        invariant
            i <= v@.len(),
            r@ == v@.take(i as int),
        decreases v.len() - i,
    {
        r.push(v[i]);
        i = i + 1;
        assert(r@ =~= v@.take(i as int));
    }
    assert(v@.take(i as int) =~= v@);
    r
}

} // verus!
