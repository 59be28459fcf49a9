//! Solidity ABI encodings, computed by alloy, and what they hold.

use vstd::prelude::*;
use alloy::sol_types::SolValue;
use crate::address::Address;
use crate::uint::{U160, U256, be_bytes, zeros};

verus! {

/// The Keccak-256 digest of `data`, as alloy computes it.
pub uninterp spec fn spec_keccak256(data: Seq<u8>) -> Seq<u8>;

/// The first four bytes of the Keccak-256 digest of a function signature:
/// the selector that starts the calldata of a call.
pub open spec fn spec_selector(signature: Seq<u8>) -> Seq<u8> {
    spec_keccak256(signature).take(4)
}

/// The three big-endian bytes of a Solidity `uint24` value.
pub open spec fn fee_be3(fee: u32) -> Seq<u8> {
    be_bytes(fee as nat, 3)
}

/// A 32-byte ABI word that holds `bytes` right-aligned, zeros before.
pub open spec fn abi_word(bytes: Seq<u8>) -> Seq<u8> {
    zeros((32 - bytes.len()) as nat) + bytes
}

/// `data` followed by zeros up to the next multiple of 32 bytes.
pub open spec fn abi_padded(data: Seq<u8>) -> Seq<u8> {
    data + zeros(((32 - data.len() % 32) % 32) as nat)
}

/// alloy-primitives `keccak256`: claimed to return the Keccak-256 digest of
/// `data`; the digest itself is left as a name.
#[verifier::external_body]
pub(crate) fn keccak256(data: &[u8]) -> (r: [u8; 32])
    ensures
        r@ == spec_keccak256(data@),
{
    alloy::primitives::keccak256(data).0
}

/// alloy-sol-types `abi_encode_packed` on `(Address, U24)`: claimed to give
/// the 20 address bytes followed by the three big-endian bytes of the fee.
/// `U24::from` panics on a fee of 2^24 or more, which `requires` rules out.
#[verifier::external_body]
pub(crate) fn packed_leg(token: Address, fee: u32) -> (r: Vec<u8>)
    requires
        fee < 0x100_0000,
    ensures
        r@ == token@ + fee_be3(fee),
{
    (alloy::primitives::Address::new(token.bytes), alloy::primitives::aliases::U24::from(fee))
        .abi_encode_packed()
}

/// alloy-sol-types `abi_encode_packed` on an `Address`: claimed to give its
/// 20 bytes.
#[verifier::external_body]
pub(crate) fn packed_address(token: Address) -> (r: Vec<u8>)
    ensures
        r@ == token@,
{
    alloy::primitives::Address::new(token.bytes).abi_encode_packed()
}

/// alloy-sol-types `abi_encode_params` on `(address, address, uint24,
/// uint256, uint160)`: claimed to give five 32-byte words, each value
/// right-aligned after zeros. `U24::from` panics on a fee of 2^24 or more,
/// which `requires` rules out.
#[verifier::external_body]
pub(crate) fn abi_encode_single_quote_params(
    token_in: Address,
    token_out: Address,
    fee: u32,
    amount: U256,
    sqrt_price_limit: U160,
) -> (r: Vec<u8>)
    requires
        fee < 0x100_0000,
    ensures
        r@ == abi_word(token_in@) + abi_word(token_out@) + abi_word(fee_be3(fee)) + abi_word(amount@)
            + abi_word(sqrt_price_limit@),
{
    (
        alloy::primitives::Address::new(token_in.bytes),
        alloy::primitives::Address::new(token_out.bytes),
        alloy::primitives::aliases::U24::from(fee),
        alloy::primitives::U256::from_be_bytes(amount.bytes),
        alloy::primitives::aliases::U160::from_be_bytes(sqrt_price_limit.bytes),
    ).abi_encode_params()
}

/// alloy-sol-types `abi_encode_params` on `(bytes, uint256)`: claimed to
/// give the offset word 64, the amount word, the length word of `path`,
/// then `path` padded with zeros to a multiple of 32 bytes.
#[verifier::external_body]
pub(crate) fn abi_encode_path_quote_params(path: &Vec<u8>, amount: U256) -> (r: Vec<u8>)
    ensures
        r@ == be_bytes(64, 32) + abi_word(amount@) + be_bytes(path@.len() as nat, 32) + abi_padded(
            path@,
        ),
{
    (
        alloy::primitives::Bytes::copy_from_slice(path.as_slice()),
        alloy::primitives::U256::from_be_bytes(amount.bytes),
    ).abi_encode_params()
}

/// alloy-sol-types `abi_decode` of a `U256` (the default decoder, neither
/// strict nor validating): claimed to succeed exactly when `data` holds at
/// least one 32-byte word, and then to read that first word big-endian.
/// Bytes after it are ignored.
#[verifier::external_body]
pub(crate) fn abi_decode_u256(data: &[u8]) -> (r: Option<U256>)
    ensures
        r is Some <==> data@.len() >= 32,
        r matches Some(v) ==> v@ == data@.take(32),
{
    match alloy::primitives::U256::abi_decode(data) {
        Ok(v) => Some(U256 { bytes: v.to_be_bytes::<32>() }),
        Err(_) => None,
    }
}

} // verus!
