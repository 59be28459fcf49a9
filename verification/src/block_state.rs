//! The latest block seen and the block expected after it.

use vstd::prelude::*;
use vstd::arithmetic::div_mod::{lemma_div_by_multiple, lemma_div_denominator, lemma_div_is_ordered};
use vstd::arithmetic::mul::lemma_mul_inequality;

verus! {

/// Block parameters that the strategy prices transactions with.
#[derive(Clone, Copy, Debug)]
pub struct BlockInfo {
    pub number: u64,
    pub timestamp: u64,
    pub gas_used: Option<u64>,
    pub gas_limit: Option<u64>,
    pub base_fee_per_gas: u64,
}

/// The block before any block: all zero, no gas figures.
pub open spec fn spec_default_block() -> BlockInfo {
    BlockInfo { number: 0, timestamp: 0, gas_used: None, gas_limit: None, base_fee_per_gas: 0 }
}

impl Default for BlockInfo {
    fn default() -> (r: Self)
        ensures
            r == spec_default_block(),
    {
        BlockInfo { number: 0, timestamp: 0, gas_used: None, gas_limit: None, base_fee_per_gas: 0 }
    }
}

/// Ethereum's EIP-1559 gas target: half the gas limit.
pub open spec fn gas_target(gas_limit: u64) -> int {
    gas_limit as int / 2
}

/// The raw increase of the base fee above the target: at least 1, at most
/// the base fee times the excess over eight times the target.
pub open spec fn base_fee_increase(gas_used: u64, gas_limit: u64, base_fee: u64) -> int {
    let t = gas_target(gas_limit);
    let q = (base_fee as int * (gas_used as int - t)) / (t * 8);
    if q < 1 {
        1
    } else {
        q
    }
}

/// The decrease of the base fee below the target.
pub open spec fn base_fee_decrease(gas_used: u64, gas_limit: u64, base_fee: u64) -> int {
    let t = gas_target(gas_limit);
    (base_fee as int * (t - gas_used as int)) / (t * 8)
}

/// Ethereum's EIP-1559 base fee of the next block (elasticity 2, maximum
/// change denominator 8): unchanged at the target, up by the increase
/// (kept to 64 bits) above it, down by the decrease below it.
pub open spec fn spec_next_base_fee(gas_used: u64, gas_limit: u64, base_fee: u64) -> int {
    let t = gas_target(gas_limit);
    if gas_used as int == t {
        base_fee as int
    } else if gas_used as int > t {
        base_fee as int + base_fee_increase(gas_used, gas_limit, base_fee) % 0x1_0000_0000_0000_0000
    } else {
        base_fee as int - base_fee_decrease(gas_used, gas_limit, base_fee)
    }
}

/// The computation neither divides by a zero target nor overflows 64 bits.
pub open spec fn base_fee_computable(gas_used: u64, gas_limit: u64, base_fee: u64) -> bool {
    gas_used as int > gas_target(gas_limit) ==> {
        &&& gas_target(gas_limit) > 0
        &&& base_fee as int + base_fee_increase(gas_used, gas_limit, base_fee)
            % 0x1_0000_0000_0000_0000 <= u64::MAX
    }
}

/// alloy-eips `BaseFeeParams::ethereum().next_block_base_fee`: claimed to
/// return `spec_next_base_fee`, the formula of its source. The source
/// divides by zero when the usage exceeds a zero target and overflows when
/// the increased fee passes `u64::MAX`; `requires` rules both out.
#[verifier::external_body]
fn ethereum_next_block_base_fee(gas_used: u64, gas_limit: u64, base_fee: u64) -> (r: u64)
    requires
        base_fee_computable(gas_used, gas_limit, base_fee),
    ensures
        r == spec_next_base_fee(gas_used, gas_limit, base_fee),
{
    alloy::eips::eip1559::BaseFeeParams::ethereum().next_block_base_fee(
        gas_used,
        gas_limit,
        base_fee,
    )
}

/// A missing gas figure counts as zero.
pub open spec fn gas_or_zero(v: Option<u64>) -> u64 {
    match v {
        Some(x) => x,
        None => 0,
    }
}

impl BlockInfo {
    /// The next block can be derived from this one without overflow.
    pub open spec fn has_next(self) -> bool {
        &&& self.number < u64::MAX
        &&& self.timestamp <= u64::MAX - 12
        &&& base_fee_computable(
            gas_or_zero(self.gas_used),
            gas_or_zero(self.gas_limit),
            self.base_fee_per_gas,
        )
    }

    /// The block after this one: next number, twelve seconds later, with the
    /// EIP-1559 base fee, and no gas figures yet.
    pub open spec fn spec_next(self) -> BlockInfo {
        BlockInfo {
            number: (self.number + 1) as u64,
            timestamp: (self.timestamp + 12) as u64,
            gas_used: None,
            gas_limit: None,
            base_fee_per_gas: spec_next_base_fee(
                gas_or_zero(self.gas_used),
                gas_or_zero(self.gas_limit),
                self.base_fee_per_gas,
            ) as u64,
        }
    }

    /// Block info for the next block.
    pub fn get_next_block(&self) -> (r: BlockInfo)
        requires
            self.has_next(),
        ensures
            r == self.spec_next(),
    {
        let gas_used = match self.gas_used {
            Some(v) => v,
            None => 0,
        };
        let gas_limit = match self.gas_limit {
            Some(v) => v,
            None => 0,
        };
        let base_fee_per_gas = ethereum_next_block_base_fee(
            gas_used,
            gas_limit,
            self.base_fee_per_gas,
        );
        BlockInfo {
            number: self.number + 1,
            timestamp: self.timestamp + 12,
            base_fee_per_gas,
            gas_used: None,
            gas_limit: None,
        }
    }

    /// Whether the next block can be derived from this one: the number and
    /// timestamp do not overflow, and neither does the base fee computation.
    pub fn can_get_next_block(&self) -> (r: bool)
        ensures
            r == self.has_next(),
    {
        if self.number == u64::MAX || self.timestamp > u64::MAX - 12 {
            return false;
        }
        let gas_used = match self.gas_used {
            Some(v) => v,
            None => 0,
        };
        let gas_limit = match self.gas_limit {
            Some(v) => v,
            None => 0,
        };
        let target = gas_limit / 2;
        if gas_used <= target {
            return true;
        }
        if target == 0 {
            return false;
        }
        let base = self.base_fee_per_gas as u128;
        let excess = (gas_used - target) as u128;
        assert(base * excess < 0x1_0000_0000_0000_0000_0000_0000_0000_0000) by (nonlinear_arith)
            requires
                base < 0x1_0000_0000_0000_0000,
                excess < 0x1_0000_0000_0000_0000,
        ;
        let scaled = base * excess;
        let denominator = (target as u128) * 8;
        let q = scaled / denominator;
        let increase: u128 = if q < 1 {
            1
        } else {
            q
        };
        let wrapped = increase % 0x1_0000_0000_0000_0000u128;
        proof {
            assert(gas_target(gas_limit) == target as int);
            assert(base_fee_increase(gas_used, gas_limit, self.base_fee_per_gas) == increase as int);
        }
        base + wrapped <= u64::MAX as u128
    }

    /// Block info from the fields of a block header; a missing base fee
    /// counts as zero.
    pub fn from_header_fields(
        number: u64,
        timestamp: u64,
        gas_used: u64,
        gas_limit: u64,
        base_fee_per_gas: Option<u64>,
    ) -> (r: BlockInfo)
        ensures
            r == (BlockInfo {
                number,
                timestamp,
                gas_used: Some(gas_used),
                gas_limit: Some(gas_limit),
                base_fee_per_gas: gas_or_zero(base_fee_per_gas),
            }),
    {
        BlockInfo {
            number,
            timestamp,
            gas_used: Some(gas_used),
            gas_limit: Some(gas_limit),
            base_fee_per_gas: match base_fee_per_gas {
                Some(v) => v,
                None => 0,
            },
        }
    }
}

/// EIP-1559 direction: the base fee stays put when the block used exactly
/// its gas target; it does not fall when the block used more, and rises
/// unless the increase is a multiple of 2^64 (which the 64-bit truncation
/// of the source turns into no increase); it does not rise when the block
/// used less, and falls by at most an eighth.
pub proof fn lemma_next_base_fee_direction(gas_used: u64, gas_limit: u64, base_fee: u64)
    requires
        base_fee_computable(gas_used, gas_limit, base_fee),
    ensures
        gas_used as int == gas_target(gas_limit) ==> spec_next_base_fee(
            gas_used,
            gas_limit,
            base_fee,
        ) == base_fee,
        gas_used as int > gas_target(gas_limit) ==> spec_next_base_fee(
            gas_used,
            gas_limit,
            base_fee,
        ) >= base_fee,
        gas_used as int > gas_target(gas_limit) && base_fee_increase(gas_used, gas_limit, base_fee)
            % 0x1_0000_0000_0000_0000 != 0 ==> spec_next_base_fee(gas_used, gas_limit, base_fee)
            > base_fee,
        gas_used as int <= gas_target(gas_limit) ==> spec_next_base_fee(
            gas_used,
            gas_limit,
            base_fee,
        ) <= base_fee,
        gas_used as int <= gas_target(gas_limit) ==> 8 * spec_next_base_fee(
            gas_used,
            gas_limit,
            base_fee,
        ) >= 7 * base_fee,
{
    let t = gas_target(gas_limit);
    let b = base_fee as int;
    let u = gas_used as int;
    if u < t {
        let d = base_fee_decrease(gas_used, gas_limit, base_fee);
        assert(0 <= d && 8 * d <= b) by (nonlinear_arith)
            requires
                d == (b * (t - u)) / (t * 8),
                0 <= u < t,
                0 <= b,
        ;
    }
}

/// The largest rise of the base fee within the gas limit: an eighth of it,
/// and at least 1.
pub open spec fn max_base_fee_rise(base_fee: u64) -> int {
    if base_fee as int / 8 < 1 {
        1
    } else {
        base_fee as int / 8
    }
}

/// A share of `b` that grows with `a`, over a positive denominator.
proof fn lemma_scaled_ordered(b: int, a1: int, a2: int, den: int)
    requires
        0 <= b,
        0 <= a1 <= a2,
        0 < den,
    ensures
        0 <= (b * a1) / den <= (b * a2) / den,
{
    lemma_mul_inequality(a1, a2, b);
    assert(a1 * b == b * a1 && a2 * b == b * a2) by (nonlinear_arith);
    assert(0 <= b * a1) by (nonlinear_arith)
        requires
            0 <= b,
            0 <= a1,
    ;
    lemma_div_is_ordered(b * a1, b * a2, den);
    lemma_div_is_ordered(0, b * a1, den);
}

/// At most the whole target, the share is at most an eighth of `b`.
proof fn lemma_scaled_at_most_eighth(b: int, a: int, t: int)
    requires
        0 <= b,
        0 <= a <= t,
        0 < t,
    ensures
        0 <= (b * a) / (t * 8) <= b / 8,
{
    lemma_scaled_ordered(b, a, t, t * 8);
    assert(0 <= b * t) by (nonlinear_arith)
        requires
            0 <= b,
            0 < t,
    ;
    lemma_div_denominator(b * t, t, 8);
    lemma_div_by_multiple(b, t);
}

/// Within the gas limit (at most twice the target), the next base fee
/// rises exactly when the block used more than its target, by at most
/// `max_base_fee_rise`, and falls by at most an eighth; when that largest
/// rise fits in 64 bits the computation cannot overflow.
pub proof fn lemma_next_base_fee_bounded(gas_used: u64, gas_limit: u64, base_fee: u64)
    requires
        gas_used as int <= 2 * gas_target(gas_limit),
    ensures
        spec_next_base_fee(gas_used, gas_limit, base_fee) > base_fee <==> gas_used as int
            > gas_target(gas_limit),
        base_fee as int - base_fee as int / 8 <= spec_next_base_fee(gas_used, gas_limit, base_fee),
        spec_next_base_fee(gas_used, gas_limit, base_fee) <= base_fee as int + max_base_fee_rise(
            base_fee,
        ),
        base_fee as int + max_base_fee_rise(base_fee) <= u64::MAX ==> base_fee_computable(
            gas_used,
            gas_limit,
            base_fee,
        ),
{
    let t = gas_target(gas_limit);
    let b = base_fee as int;
    let u = gas_used as int;
    if u > t {
        lemma_scaled_at_most_eighth(b, u - t, t);
        let inc = base_fee_increase(gas_used, gas_limit, base_fee);
        assert(1 <= inc <= max_base_fee_rise(base_fee));
        assert(inc < 0x1_0000_0000_0000_0000);
        assert(inc % 0x1_0000_0000_0000_0000 == inc);
    } else if u < t {
        lemma_scaled_at_most_eighth(b, t - u, t);
    }
}

/// Within the gas limit, the more gas a block used, the higher (or equal)
/// the next base fee: for a fixed gas limit and base fee, the next base
/// fee never falls as the gas used rises.
pub proof fn lemma_next_base_fee_monotonic(
    gas_used1: u64,
    gas_used2: u64,
    gas_limit: u64,
    base_fee: u64,
)
    requires
        gas_used1 <= gas_used2,
        gas_used2 as int <= 2 * gas_target(gas_limit),
    ensures
        spec_next_base_fee(gas_used1, gas_limit, base_fee) <= spec_next_base_fee(
            gas_used2,
            gas_limit,
            base_fee,
        ),
{
    let t = gas_target(gas_limit);
    let b = base_fee as int;
    let u1 = gas_used1 as int;
    let u2 = gas_used2 as int;
    lemma_next_base_fee_bounded(gas_used1, gas_limit, base_fee);
    lemma_next_base_fee_bounded(gas_used2, gas_limit, base_fee);
    if u1 > t {
        lemma_scaled_ordered(b, u1 - t, u2 - t, t * 8);
        lemma_scaled_at_most_eighth(b, u1 - t, t);
        lemma_scaled_at_most_eighth(b, u2 - t, t);
        let i1 = base_fee_increase(gas_used1, gas_limit, base_fee);
        let i2 = base_fee_increase(gas_used2, gas_limit, base_fee);
        assert(i1 <= i2);
        assert(i1 < 0x1_0000_0000_0000_0000 && i2 < 0x1_0000_0000_0000_0000);
        assert(i1 % 0x1_0000_0000_0000_0000 == i1);
        assert(i2 % 0x1_0000_0000_0000_0000 == i2);
    } else if u2 < t {
        lemma_scaled_ordered(b, t - u2, t - u1, t * 8);
    }
}

/// The latest block seen and the block expected after it.
pub struct BlockState {
    latest_block: BlockInfo,
    next_block: BlockInfo,
}

impl BlockState {
    /// The next block is always the one derived from the latest.
    #[verifier::type_invariant]
    spec fn consistent(self) -> bool {
        self.next_block == self.latest_block.spec_next()
    }

    /// The latest block seen.
    pub closed spec fn latest(self) -> BlockInfo {
        self.latest_block
    }

    /// State before any block: the default block as latest.
    pub fn new() -> (r: Self)
        ensures
            r.latest() == spec_default_block(),
    {
        Self::default()
    }

    /// Info for the block expected next: the one derived from the latest.
    pub fn get_next_block(&self) -> (r: BlockInfo)
        ensures
            r == self.latest().spec_next(),
    {
        proof {
            use_type_invariant(self);
        }
        self.next_block
    }

    /// Info for the latest block seen.
    pub fn get_latest_block(&self) -> (r: BlockInfo)
        ensures
            r == self.latest(),
    {
        self.latest_block
    }

    /// Records `latest_block` as the latest block and derives the next one.
    pub fn update_block_info(&mut self, latest_block: BlockInfo)
        requires
            latest_block.has_next(),
        ensures
            final(self).latest() == latest_block,
    {
        let next_block = latest_block.get_next_block();
        *self = BlockState { latest_block, next_block };
    }
}

impl Default for BlockState {
    fn default() -> (r: Self)
        ensures
            r.latest() == spec_default_block(),
    {
        let latest_block = BlockInfo::default();
        BlockState { next_block: latest_block.get_next_block(), latest_block }
    }
}

} // verus!
