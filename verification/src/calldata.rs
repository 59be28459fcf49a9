//! Calldata for the Uniswap V3 quoter contract.

use vstd::prelude::*;
use vstd::string::StringSliceAdditionalSpecFns;
use crate::abi::{
    abi_encode_path_quote_params, abi_encode_single_quote_params, abi_padded, abi_word, fee_be3,
    keccak256, spec_selector,
};
use crate::address::Address;
use crate::path::{encode_route_to_path, fees_fit, spec_route_path};
use crate::pool::Route;
use crate::uint::{U160, U256, be_bytes, zeros};

verus! {

/// Which side of a swap a quote fixes: the amount that goes in, or the
/// amount that comes out.
#[derive(Clone, Copy, Debug, PartialEq, Eq, Structural)]
pub enum TradeType {
    ExactInput,
    ExactOutput,
}

impl Default for TradeType {
    fn default() -> (r: Self)
        ensures
            r == TradeType::ExactInput,
    {
        TradeType::ExactInput
    }
}

/// Signature of the quoter's multi-hop exact-input function.
pub const QUOTE_EXACT_INPUT: &'static str = "quoteExactInput(bytes,uint256)";

/// Signature of the quoter's single-pool exact-input function.
pub const QUOTE_EXACT_INPUT_SINGLE: &'static str =
    "quoteExactInputSingle(address,address,uint24,uint256,uint160)";

/// Signature of the quoter's multi-hop exact-output function.
pub const QUOTE_EXACT_OUTPUT: &'static str = "quoteExactOutput(bytes,uint256)";

/// Signature of the quoter's single-pool exact-output function.
pub const QUOTE_EXACT_OUTPUT_SINGLE: &'static str =
    "quoteExactOutputSingle(address,address,uint24,uint256,uint160)";

/// The address of the Uniswap V3 quoter on Ethereum mainnet,
/// 0xb27308f9F90D607463bb33eA1BeBb41C27CE5AB6.
pub fn quoter_address() -> (r: Address)
    ensures
        r@ == seq![
            0xb2u8, 0x73, 0x08, 0xf9, 0xf9, 0x0d, 0x60, 0x74, 0x63, 0xbb,
            0x33, 0xea, 0x1b, 0xeb, 0xb4, 0x1c, 0x27, 0xce, 0x5a, 0xb6,
        ],
{
    let r = Address {
        bytes: [
            0xb2, 0x73, 0x08, 0xf9, 0xf9, 0x0d, 0x60, 0x74, 0x63, 0xbb, 0x33, 0xea, 0x1b, 0xeb,
            0xb4, 0x1c, 0x27, 0xce, 0x5a, 0xb6,
        ],
    };
    assert(r@ =~= seq![
        0xb2u8, 0x73, 0x08, 0xf9, 0xf9, 0x0d, 0x60, 0x74, 0x63, 0xbb,
        0x33, 0xea, 0x1b, 0xeb, 0xb4, 0x1c, 0x27, 0xce, 0x5a, 0xb6,
    ]);
    r
}

/// The four-byte selector held at the start of a signature's digest.
fn selector_of(digest: &[u8; 32]) -> (r: Vec<u8>)
    ensures
        r@ == digest@.take(4),
{
    let mut r: Vec<u8> = Vec::new();
    let mut i: usize = 0;
    while i < 4
        invariant
            i <= 4,
            r@ == digest@.take(i as int),
        decreases 4 - i,
    {
        r.push(digest[i]);
        i = i + 1;
        assert(r@ =~= digest@.take(i as int));
    }
    r
}

/// The calldata of a single-pool quote: the selector, then the two
/// tokens, the fee, the amount and the price limit as ABI words.
pub open spec fn spec_single_quote_calldata(
    amount: U256,
    token_in: Address,
    token_out: Address,
    fee: u32,
    trade_type: TradeType,
    limit: Seq<u8>,
) -> Seq<u8> {
    let signature = match trade_type {
        TradeType::ExactInput => QUOTE_EXACT_INPUT_SINGLE,
        TradeType::ExactOutput => QUOTE_EXACT_OUTPUT_SINGLE,
    };
    spec_selector(signature.spec_bytes()) + abi_word(token_in@) + abi_word(token_out@) + abi_word(
        fee_be3(fee),
    ) + abi_word(amount@) + abi_word(limit)
}

/// The calldata of a quote for `amount` along `route`: a single-pool call
/// naming the route's tokens and the pool's fee when the route has exactly
/// one pool, a multi-hop call with the packed path otherwise. The price
/// limit defaults to zero.
pub open spec fn spec_quote_calldata(
    amount: U256,
    route: Route,
    trade_type: TradeType,
    sqrt_price_limit_x96: Option<U160>,
) -> Seq<u8> {
    let limit = match sqrt_price_limit_x96 {
        Some(l) => l@,
        None => zeros(20),
    };
    if route.pools@.len() == 1 {
        spec_single_quote_calldata(
            amount,
            route.token_in,
            route.token_out,
            route.pools@[0].fee,
            trade_type,
            limit,
        )
    } else {
        let signature = match trade_type {
            TradeType::ExactInput => QUOTE_EXACT_INPUT,
            TradeType::ExactOutput => QUOTE_EXACT_OUTPUT,
        };
        let path = spec_route_path(route, trade_type == TradeType::ExactOutput);
        spec_selector(signature.spec_bytes()) + be_bytes(64, 32) + abi_word(amount@) + be_bytes(
            path.len(),
            32,
        ) + abi_padded(path)
    }
}

/// The signature of the quoter function that a quote along `route` calls:
/// a single-pool one when the route has exactly one pool, a multi-hop one
/// otherwise.
pub open spec fn quote_signature(route: Route, trade_type: TradeType) -> Seq<u8> {
    if route.pools@.len() == 1 {
        match trade_type {
            TradeType::ExactInput => QUOTE_EXACT_INPUT_SINGLE.spec_bytes(),
            TradeType::ExactOutput => QUOTE_EXACT_OUTPUT_SINGLE.spec_bytes(),
        }
    } else {
        match trade_type {
            TradeType::ExactInput => QUOTE_EXACT_INPUT.spec_bytes(),
            TradeType::ExactOutput => QUOTE_EXACT_OUTPUT.spec_bytes(),
        }
    }
}

/// The calldata of a quote whose function signature has digest `digest`:
/// the digest's first four bytes, then the ABI-encoded arguments, as in
/// `spec_quote_calldata`.
pub open spec fn quote_calldata_with_digest(
    digest: Seq<u8>,
    amount: U256,
    route: Route,
    trade_type: TradeType,
    sqrt_price_limit_x96: Option<U160>,
) -> Seq<u8> {
    let limit = match sqrt_price_limit_x96 {
        Some(l) => l@,
        None => zeros(20),
    };
    if route.pools@.len() == 1 {
        digest.take(4) + abi_word(route.token_in@) + abi_word(route.token_out@) + abi_word(
            fee_be3(route.pools@[0].fee),
        ) + abi_word(amount@) + abi_word(limit)
    } else {
        let path = spec_route_path(route, trade_type == TradeType::ExactOutput);
        digest.take(4) + be_bytes(64, 32) + abi_word(amount@) + be_bytes(path.len(), 32)
            + abi_padded(path)
    }
}

/// Builds the calldata of a quoter call for `amount` along `route`, given
/// the digest of the called function's signature.
pub fn build_quote_calldata_with_digest(
    digest: &[u8; 32],
    amount: U256,
    route: &Route,
    trade_type: TradeType,
    sqrt_price_limit_x96: Option<U160>,
) -> (r: Vec<u8>)
    requires
        fees_fit(route.pools@),
    ensures
        r@ == quote_calldata_with_digest(digest@, amount, *route, trade_type, sqrt_price_limit_x96),
{
    let sqrt_price_limit = match sqrt_price_limit_x96 {
        Some(l) => l,
        None => U160::zero(),
    };
    proof {
        if sqrt_price_limit_x96.is_none() {
            assert(sqrt_price_limit@ =~= zeros(20));
        }
    }
    let mut calldata = selector_of(digest);
    if route.pools.len() == 1 {
        let pool = &route.pools[0];
        let mut params = abi_encode_single_quote_params(
            route.token_in,
            route.token_out,
            pool.fee,
            amount,
            sqrt_price_limit,
        );
        calldata.append(&mut params);
        proof {
            let d = digest@.take(4);
            let w1 = abi_word(route.token_in@);
            let w2 = abi_word(route.token_out@);
            let w3 = abi_word(fee_be3(route.pools@[0].fee));
            let w4 = abi_word(amount@);
            let w5 = abi_word(sqrt_price_limit@);
            assert(d + (w1 + w2 + w3 + w4 + w5) =~= d + w1 + w2 + w3 + w4 + w5);
        }
        calldata
    } else {
        let exact_output = match trade_type {
            TradeType::ExactInput => false,
            TradeType::ExactOutput => true,
        };
        let path = encode_route_to_path(route, exact_output);
        let mut params = abi_encode_path_quote_params(&path, amount);
        calldata.append(&mut params);
        proof {
            let d = digest@.take(4);
            let w1 = be_bytes(64, 32);
            let w2 = abi_word(amount@);
            let w3 = be_bytes(path@.len() as nat, 32);
            let w4 = abi_padded(path@);
            assert(d + (w1 + w2 + w3 + w4) =~= d + w1 + w2 + w3 + w4);
        }
        calldata
    }
}

/// Builds the calldata of a quoter call for `amount` along `route`.
pub fn build_quote_calldata(
    amount: U256,
    route: &Route,
    trade_type: TradeType,
    sqrt_price_limit_x96: Option<U160>,
) -> (r: Vec<u8>)
    requires
        fees_fit(route.pools@),
    ensures
        r@ == spec_quote_calldata(amount, *route, trade_type, sqrt_price_limit_x96),
{
    let signature = if route.pools.len() == 1 {
        match trade_type {
            TradeType::ExactInput => QUOTE_EXACT_INPUT_SINGLE,
            TradeType::ExactOutput => QUOTE_EXACT_OUTPUT_SINGLE,
        }
    } else {
        match trade_type {
            TradeType::ExactInput => QUOTE_EXACT_INPUT,
            TradeType::ExactOutput => QUOTE_EXACT_OUTPUT,
        }
    };
    assert(signature.spec_bytes() == quote_signature(*route, trade_type));
    let digest = keccak256(signature.as_bytes());
    build_quote_calldata_with_digest(&digest, amount, route, trade_type, sqrt_price_limit_x96)
}

} // verus!
