//! The packed path of a route, as the Uniswap V3 quoter reads it: each
//! token followed by the fee of the pool it enters, then the final token.

use vstd::prelude::*;
use crate::abi::{fee_be3, packed_address, packed_leg};
use crate::address::Address;
use crate::pool::{Pool, Route};
use crate::uint::lemma_be_bytes_len;

verus! {

/// The token reached from `start` by swapping through `pools` in order.
pub open spec fn token_through(pools: Seq<Pool>, start: Address) -> Address
    decreases pools.len(),
{
    if pools.len() == 0 {
        start
    } else {
        pools.last().spec_token_out(token_through(pools.drop_last(), start))
    }
}

/// For each pool in order, the token that enters it followed by its fee.
pub open spec fn packed_legs(pools: Seq<Pool>, start: Address) -> Seq<u8>
    decreases pools.len(),
{
    if pools.len() == 0 {
        Seq::empty()
    } else {
        packed_legs(pools.drop_last(), start) + token_through(pools.drop_last(), start)@ + fee_be3(
            pools.last().fee,
        )
    }
}

/// `s` back to front.
pub open spec fn reversed<T>(s: Seq<T>) -> Seq<T> {
    Seq::new(s.len(), |i: int| s[s.len() - 1 - i])
}

/// Every fee fits in a Solidity `uint24`.
pub open spec fn fees_fit(pools: Seq<Pool>) -> bool {
    forall|i: int| 0 <= i < pools.len() ==> (#[trigger] pools[i]).fee < 0x100_0000
}

/// The packed path of `route`: from `token_in` forwards for an exact-input
/// quote, from `token_out` backwards through the reversed pools for an
/// exact-output one.
pub open spec fn spec_route_path(route: Route, exact_output: bool) -> Seq<u8> {
    if exact_output {
        packed_legs(reversed(route.pools@), route.token_out) + route.token_in@
    } else {
        packed_legs(route.pools@, route.token_in) + route.token_out@
    }
}

/// Each pool adds 23 bytes to the packed legs.
pub proof fn lemma_packed_legs_len(pools: Seq<Pool>, start: Address)
    ensures
        packed_legs(pools, start).len() == 23 * pools.len(),
    decreases pools.len(),
{
    if pools.len() > 0 {
        lemma_packed_legs_len(pools.drop_last(), start);
        lemma_be_bytes_len(pools.last().fee as nat, 3);
        assert(token_through(pools.drop_last(), start)@.len() == 20);
    }
}

/// Packs one leg: the token that enters `pool`, then the pool's fee; also
/// returns the token that comes out.
fn encode_leg(pool: &Pool, token_in: Address) -> (r: (Address, Vec<u8>))
    requires
        pool.fee < 0x100_0000,
    ensures
        r.0 == pool.spec_token_out(token_in),
        r.1@ == token_in@ + fee_be3(pool.fee),
{
    let token_out = pool.get_token_out(token_in);
    (token_out, packed_leg(token_in, pool.fee))
}

/// The packed path of `route`, `23 * pools + 20` bytes long, for an
/// exact-output quote when `exact_output` holds and an exact-input one
/// otherwise.
pub fn encode_route_to_path(route: &Route, exact_output: bool) -> (r: Vec<u8>)
    requires
        fees_fit(route.pools@),
    ensures
        r@ == spec_route_path(*route, exact_output),
        r@.len() == 23 * route.pools@.len() + 20,
        !exact_output ==> forall|k: int|
            0 <= k < route.pools@.len() ==> r@.subrange(23 * k + 20, 23 * k + 23) == fee_be3(
                (#[trigger] route.pools@[k]).fee,
            ) && r@.subrange(23 * k, 23 * k + 20) == token_through(
                route.pools@.take(k),
                route.token_in,
            )@,
        exact_output ==> forall|k: int|
            0 <= k < route.pools@.len() ==> r@.subrange(
                23 * (route.pools@.len() - 1 - k) + 20,
                23 * (route.pools@.len() - 1 - k) + 23,
            ) == fee_be3((#[trigger] route.pools@[k]).fee),
        r@.subrange(23 * (route.pools@.len() as int), 23 * (route.pools@.len() as int) + 20) == if exact_output {
            route.token_in@
        } else {
            route.token_out@
        },
{
    let pools = &route.pools;
    let n = pools.len();
    let mut path: Vec<u8> = Vec::new();
    if exact_output {
        let ghost rev = reversed(pools@);
        let mut output_token = route.token_out;
        let mut j: usize = 0;
        while j < n
            invariant
                n == pools@.len(),
                rev == reversed(pools@),
                fees_fit(pools@),
                j <= n,
                path@ == packed_legs(rev.take(j as int), route.token_out),
                output_token == token_through(rev.take(j as int), route.token_out),
            decreases n - j,
        {
            let pool = &pools[n - 1 - j];
            assert(rev[j as int] == pools@[n - 1 - j]);
            let (input_token, mut leg) = encode_leg(pool, output_token);
            proof {
                let t = rev.take(j + 1);
                assert(t.drop_last() =~= rev.take(j as int));
                assert(t.last() == rev[j as int]);
            }
            output_token = input_token;
            path.append(&mut leg);
            j = j + 1;
        }
        let mut tail = packed_address(route.token_in);
        path.append(&mut tail);
        proof {
            assert(rev.take(n as int) =~= rev);
            lemma_packed_legs_len(rev, route.token_out);
        }
    } else {
        let mut input_token = route.token_in;
        let mut k: usize = 0;
        while k < n
            invariant
                n == pools@.len(),
                fees_fit(pools@),
                k <= n,
                path@ == packed_legs(pools@.take(k as int), route.token_in),
                input_token == token_through(pools@.take(k as int), route.token_in),
            decreases n - k,
        {
            let pool = &pools[k];
            let (output_token, mut leg) = encode_leg(pool, input_token);
            proof {
                let t = pools@.take(k + 1);
                assert(t.drop_last() =~= pools@.take(k as int));
                assert(t.last() == pools@[k as int]);
            }
            input_token = output_token;
            path.append(&mut leg);
            k = k + 1;
        }
        let mut tail = packed_address(route.token_out);
        path.append(&mut tail);
        proof {
            assert(pools@.take(n as int) =~= pools@);
            lemma_packed_legs_len(pools@, route.token_in);
        }
    }
    proof {
        assert forall|k: int| 0 <= k < route.pools@.len() implies {
            &&& !exact_output ==> path@.subrange(23 * k + 20, 23 * k + 23) == fee_be3(
                (#[trigger] route.pools@[k]).fee,
            ) && path@.subrange(23 * k, 23 * k + 20) == token_through(
                route.pools@.take(k),
                route.token_in,
            )@
            &&& exact_output ==> path@.subrange(
                23 * (route.pools@.len() - 1 - k) + 20,
                23 * (route.pools@.len() - 1 - k) + 23,
            ) == fee_be3(route.pools@[k].fee)
        } by {
            lemma_route_path_layout(*route, k);
        }
        lemma_route_path_layout_ends(*route);
    }
    path
}

/// Layout of a route's path for an exact-input quote: leg `k` is the token
/// held before pool `k` (`token_in` first) followed by pool `k`'s fee. For
/// an exact-output quote the pools come in reverse order, starting from
/// `token_out`: pool `k`'s fee closes leg `n - 1 - k`, whose token is the
/// one reached from `token_out` through the pools after `k`, last first.
pub proof fn lemma_route_path_layout(route: Route, k: int)
    requires
        0 <= k < route.pools@.len(),
    ensures
        spec_route_path(route, false).subrange(23 * k + 20, 23 * k + 23) == fee_be3(
            route.pools@[k].fee,
        ),
        spec_route_path(route, false).subrange(23 * k, 23 * k + 20) == token_through(
            route.pools@.take(k),
            route.token_in,
        )@,
        k == 0 ==> spec_route_path(route, false).subrange(0, 20) == route.token_in@,
        spec_route_path(route, true).subrange(
            23 * (route.pools@.len() - 1 - k) + 20,
            23 * (route.pools@.len() - 1 - k) + 23,
        ) == fee_be3(route.pools@[k].fee),
        spec_route_path(route, true).subrange(
            23 * (route.pools@.len() - 1 - k),
            23 * (route.pools@.len() - 1 - k) + 20,
        ) == token_through(
            reversed(route.pools@).take(route.pools@.len() - 1 - k),
            route.token_out,
        )@,
        k == route.pools@.len() - 1 ==> spec_route_path(route, true).subrange(0, 20)
            == route.token_out@,
{
    let pools = route.pools@;
    let n = pools.len();
    let rev = reversed(pools);
    let j = n - 1 - k;
    lemma_packed_legs_len(pools, route.token_in);
    lemma_packed_legs_len(rev, route.token_out);
    lemma_packed_legs_layout(pools, route.token_in, k);
    lemma_packed_legs_layout(rev, route.token_out, j);
    assert(rev[j] == pools[k]);
    let fwd = packed_legs(pools, route.token_in);
    let bwd = packed_legs(rev, route.token_out);
    assert(spec_route_path(route, false).subrange(23 * k + 20, 23 * k + 23) =~= fwd.subrange(
        23 * k + 20,
        23 * k + 23,
    ));
    assert(spec_route_path(route, false).subrange(23 * k, 23 * k + 20) =~= fwd.subrange(
        23 * k,
        23 * k + 20,
    ));
    assert(spec_route_path(route, true).subrange(23 * j + 20, 23 * j + 23) =~= bwd.subrange(
        23 * j + 20,
        23 * j + 23,
    ));
    assert(spec_route_path(route, true).subrange(23 * j, 23 * j + 20) =~= bwd.subrange(
        23 * j,
        23 * j + 20,
    ));
    assert(pools.take(0) =~= Seq::<Pool>::empty());
    assert(rev.take(0) =~= Seq::<Pool>::empty());
}

/// A route's path ends with the token that the quote ends at: `token_out`
/// for an exact-input quote, `token_in` for an exact-output one.
pub proof fn lemma_route_path_layout_ends(route: Route)
    ensures
        spec_route_path(route, false).len() == 23 * route.pools@.len() + 20,
        spec_route_path(route, true).len() == 23 * route.pools@.len() + 20,
        spec_route_path(route, false).subrange(
            23 * (route.pools@.len() as int),
            23 * (route.pools@.len() as int) + 20,
        ) == route.token_out@,
        spec_route_path(route, true).subrange(
            23 * (route.pools@.len() as int),
            23 * (route.pools@.len() as int) + 20,
        ) == route.token_in@,
{
    let n = route.pools@.len() as int;
    lemma_packed_legs_len(route.pools@, route.token_in);
    lemma_packed_legs_len(reversed(route.pools@), route.token_out);
    assert(spec_route_path(route, false).subrange(23 * n, 23 * n + 20) =~= route.token_out@);
    assert(spec_route_path(route, true).subrange(23 * n, 23 * n + 20) =~= route.token_in@);
}

/// Layout of the packed legs: the leg of pool `k` starts at byte `23 * k`
/// with the 20 bytes of the token that enters it, followed by the three
/// bytes of its fee.
pub proof fn lemma_packed_legs_layout(pools: Seq<Pool>, start: Address, k: int)
    requires
        0 <= k < pools.len(),
    ensures
        packed_legs(pools, start).subrange(23 * k, 23 * k + 20) == token_through(
            pools.take(k),
            start,
        )@,
        packed_legs(pools, start).subrange(23 * k + 20, 23 * k + 23) == fee_be3(pools[k].fee),
    decreases pools.len(),
{
    let d = pools.drop_last();
    let legs = packed_legs(pools, start);
    let front = packed_legs(d, start);
    let token = token_through(d, start)@;
    let fee = fee_be3(pools.last().fee);
    lemma_packed_legs_len(d, start);
    lemma_be_bytes_len(pools.last().fee as nat, 3);
    assert(token.len() == 20);
    assert(legs == front + token + fee);
    if k < pools.len() - 1 {
        lemma_packed_legs_layout(d, start, k);
        assert(d.take(k) =~= pools.take(k));
        assert(legs.subrange(23 * k, 23 * k + 20) =~= front.subrange(23 * k, 23 * k + 20));
        assert(legs.subrange(23 * k + 20, 23 * k + 23) =~= front.subrange(23 * k + 20, 23 * k + 23));
    } else {
        assert(pools.take(k) =~= d);
        assert(legs.subrange(23 * k, 23 * k + 20) =~= token);
        assert(legs.subrange(23 * k + 20, 23 * k + 23) =~= fee);
    }
}

} // verus!
