//! Uniswap V3 pools and the routes made of them.

use vstd::prelude::*;
use crate::address::Address;

verus! {

/// A Uniswap V3 pool: its address, its two tokens and its fee tier.
#[derive(Clone, Copy, Debug)]
pub struct Pool {
    pub address: Address,
    pub token0: Address,
    pub token1: Address,
    pub fee: u32,
}

impl Pool {
    /// The pool trades `token`.
    pub open spec fn spec_involves(self, token: Address) -> bool {
        self.token0 == token || self.token1 == token
    }

    /// What comes out of the pool when `token_in` goes in: the other token,
    /// or `token0` when `token_in` is not `token0`.
    pub open spec fn spec_token_out(self, token_in: Address) -> Address {
        if self.token0 == token_in {
            self.token1
        } else {
            self.token0
        }
    }

    /// Both tokens of the pool, `token0` first.
    pub fn tokens(&self) -> (r: [Address; 2])
        ensures
            r@ == seq![self.token0, self.token1],
    {
        let r = [self.token0, self.token1];
        assert(r@ =~= seq![self.token0, self.token1]);
        r
    }

    /// Whether the pool trades `token`.
    pub fn involves_token(&self, token: Address) -> (r: bool)
        ensures
            r == self.spec_involves(token),
    {
        self.token0 == token || self.token1 == token
    }

    /// The token that comes out of the pool when `token_in` goes in.
    pub fn get_token_out(&self, token_in: Address) -> (r: Address)
        ensures
            r == self.spec_token_out(token_in),
    {
        if self.token0 == token_in {
            self.token1
        } else {
            self.token0
        }
    }
}

/// A swap route: the pools to go through, from `token_in` to `token_out`.
#[derive(Clone, Debug)]
pub struct Route {
    pub token_in: Address,
    pub token_out: Address,
    pub pools: Vec<Pool>,
}

/// A copy of a list of pools, element by element.
pub(crate) fn copy_pools(pools: &Vec<Pool>) -> (r: Vec<Pool>)
    ensures
        r@ == pools@,
{
    let mut r: Vec<Pool> = Vec::new();
    let mut i: usize = 0;
    while i < pools.len()
        invariant
            i <= pools.len(),
            r@ == pools@.take(i as int),
        decreases pools.len() - i,
    {
        r.push(pools[i]);
        i = i + 1;
        assert(r@ =~= pools@.take(i as int));
    }
    assert(pools@.take(i as int) =~= pools@);
    r
}

/// A copy of a route.
pub(crate) fn copy_route(route: &Route) -> (r: Route)
    ensures
        r.token_in == route.token_in,
        r.token_out == route.token_out,
        r.pools@ == route.pools@,
{
    Route { token_in: route.token_in, token_out: route.token_out, pools: copy_pools(&route.pools) }
}

/// A copy of a list of routes.
pub(crate) fn copy_routes(routes: &Vec<Route>) -> (r: Vec<Route>)
    ensures
        r@.len() == routes@.len(),
        forall|k: int|
            0 <= k < r@.len() ==> (#[trigger] r@[k]).token_in == routes@[k].token_in
                && r@[k].token_out == routes@[k].token_out && r@[k].pools@ == routes@[k].pools@,
{
    let mut r: Vec<Route> = Vec::new();
    let mut i: usize = 0;
    while i < routes.len()
        invariant
            i <= routes@.len(),
            r@.len() == i,
            forall|k: int|
                0 <= k < i ==> (#[trigger] r@[k]).token_in == routes@[k].token_in
                    && r@[k].token_out == routes@[k].token_out && r@[k].pools@ == routes@[k].pools@,
        decreases routes.len() - i,
    {
        r.push(copy_route(&routes[i]));
        i = i + 1;
    }
    r
}

} // verus!
