//! The pool set of a Uniswap V3 quoter, its precomputed routes into WETH,
//! and the decisions around a quote: which routes to quote, and which
//! quote wins.

use vstd::prelude::*;
use crate::address::{
    Address, hex_address_bytes, hex_address_ok, lemma_address_eq_view, parse_address, parse_u32,
    spec_parse_u32,
};
use crate::calldata::{TradeType, build_quote_calldata, spec_single_quote_calldata};
use crate::compute_routes::{ComputeRoutes, route_follows};
use crate::path::fees_fit;
use crate::pool::{Pool, Route, copy_pools, copy_routes};
use crate::route_search::RouteSearch;
use crate::uint::{U256, zeros};
use crate::calldata::spec_quote_calldata;
use crate::abi::abi_decode_u256;

verus! {

/// Hop limit of the routes that the quoter searches.
pub const DEFAULT_MAX_HOPS: u8 = 2;

/// WETH on Ethereum mainnet, 0xC02aaA39b223FE8D0A0e5C4F27eAD9083C756Cc2.
pub open spec fn spec_weth() -> Seq<u8> {
    seq![
        0xc0u8, 0x2a, 0xaa, 0x39, 0xb2, 0x23, 0xfe, 0x8d, 0x0a, 0x0e,
        0x5c, 0x4f, 0x27, 0xea, 0xd9, 0x08, 0x3c, 0x75, 0x6c, 0xc2,
    ]
}

/// The WETH address.
pub fn weth_address() -> (r: Address)
    ensures
        r@ == spec_weth(),
        r == weth_address_spec(),
{
    let r = Address {
        bytes: [
            0xc0, 0x2a, 0xaa, 0x39, 0xb2, 0x23, 0xfe, 0x8d, 0x0a, 0x0e, 0x5c, 0x4f, 0x27, 0xea,
            0xd9, 0x08, 0x3c, 0x75, 0x6c, 0xc2,
        ],
    };
    assert(r@ =~= spec_weth());
    assert(r.bytes =~= weth_address_spec().bytes);
    r
}

/// A pool as a subgraph lists it: its address, fee tier and tokens as text.
#[derive(Clone, Debug)]
pub struct PoolRecord {
    pub id: String,
    pub fee_tier: String,
    pub token0: String,
    pub token1: String,
}

/// All four fields of the record parse.
pub open spec fn record_parses(r: PoolRecord) -> bool {
    &&& hex_address_ok(r.id@)
    &&& hex_address_ok(r.token0@)
    &&& hex_address_ok(r.token1@)
    &&& spec_parse_u32(r.fee_tier@) is Some
}

/// `p` is the pool that the record describes.
pub open spec fn record_gives(r: PoolRecord, p: Pool) -> bool {
    &&& record_parses(r)
    &&& p.address@ == hex_address_bytes(r.id@)
    &&& p.token0@ == hex_address_bytes(r.token0@)
    &&& p.token1@ == hex_address_bytes(r.token1@)
    &&& p.fee == spec_parse_u32(r.fee_tier@).unwrap()
}

/// The pool that a record describes, if all its fields parse.
fn parse_record(r: &PoolRecord) -> (p: Option<Pool>)
    ensures
        p is Some <==> record_parses(*r),
        p matches Some(pool) ==> record_gives(*r, pool),
{
    let address = match parse_address(r.id.as_str()) {
        Some(a) => a,
        None => return None,
    };
    let token0 = match parse_address(r.token0.as_str()) {
        Some(a) => a,
        None => return None,
    };
    let token1 = match parse_address(r.token1.as_str()) {
        Some(a) => a,
        None => return None,
    };
    let fee = match parse_u32(r.fee_tier.as_str()) {
        Some(f) => f,
        None => return None,
    };
    Some(Pool { address, token0, token1, fee })
}

/// No two pools share an address.
pub open spec fn addresses_distinct(pools: Seq<Pool>) -> bool {
    forall|i: int, j: int|
        0 <= i < j < pools.len() ==> (#[trigger] pools[i]).address@ != (#[trigger] pools[j]).address@
}

/// The position of the last record among the first `n` that parses and
/// gives address `addr`, or -1 when there is none.
pub open spec fn last_record_with(records: Seq<PoolRecord>, n: int, addr: Seq<u8>) -> int
    decreases n,
{
    if n <= 0 {
        -1
    } else if record_parses(records[n - 1]) && hex_address_bytes(records[n - 1].id@) == addr {
        n - 1
    } else {
        last_record_with(records, n - 1, addr)
    }
}

/// The position of the pool with address `addr` in `pools`, if any.
fn find_pool(pools: &Vec<Pool>, addr: Address) -> (r: Option<usize>)
    ensures
        r matches Some(i) ==> i < pools@.len() && pools@[i as int].address@ == addr@,
        r is None ==> forall|i: int| 0 <= i < pools@.len() ==> pools@[i].address@ != addr@,
{
    let mut i: usize = 0;
    while i < pools.len()
        invariant
            i <= pools@.len(),
            forall|j: int| 0 <= j < i ==> pools@[j].address@ != addr@,
        decreases pools.len() - i,
    {
        if pools[i].address == addr {
            proof {
                lemma_address_eq_view(pools@[i as int].address, addr);
            }
            return Some(i);
        }
        proof {
            lemma_address_eq_view(pools@[i as int].address, addr);
        }
        i = i + 1;
    }
    None
}

/// The pools that the records describe, one per address: where several
/// records give one address the last of them counts, and records whose
/// fields do not parse are left out.
pub fn pools_from_records(records: &Vec<PoolRecord>) -> (r: Vec<Pool>)
    ensures
        addresses_distinct(r@),
        forall|i: int|
            0 <= i < r@.len() ==> {
                let k = last_record_with(records@, records@.len() as int, (#[trigger] r@[i]).address@);
                0 <= k && record_gives(records@[k], r@[i])
            },
        forall|k: int|
            0 <= k < records@.len() && record_parses(#[trigger] records@[k]) ==> exists|i: int|
                0 <= i < r@.len() && r@[i].address@ == hex_address_bytes(records@[k].id@),
{
    let mut pools: Vec<Pool> = Vec::new();
    let mut n: usize = 0;
    while n < records.len()
        invariant
            n <= records@.len(),
            addresses_distinct(pools@),
            forall|i: int|
                0 <= i < pools@.len() ==> {
                    let k = last_record_with(records@, n as int, (#[trigger] pools@[i]).address@);
                    0 <= k && record_gives(records@[k], pools@[i])
                },
            forall|k: int|
                0 <= k < n && record_parses(#[trigger] records@[k]) ==> exists|i: int|
                    0 <= i < pools@.len() && pools@[i].address@ == hex_address_bytes(
                        records@[k].id@,
                    ),
        decreases records.len() - n,
    {
        let ghost old_pools = pools@;
        match parse_record(&records[n]) {
            None => {
                proof {
                    assert forall|i: int| 0 <= i < pools@.len() implies {
                        let k = last_record_with(records@, n + 1, (#[trigger] pools@[i]).address@);
                        0 <= k && record_gives(records@[k], pools@[i])
                    } by {
                        assert(last_record_with(records@, n + 1, pools@[i].address@)
                            == last_record_with(records@, n as int, pools@[i].address@));
                    }
                }
            },
            Some(pool) => {
                let ghost a = pool.address@;
                assert(last_record_with(records@, n + 1, a) == n);
                match find_pool(&pools, pool.address) {
                    Some(j) => {
                        pools.set(j, pool);
                        proof {
                            assert forall|x: int, y: int|
                                0 <= x < y < pools@.len() implies (#[trigger] pools@[x]).address@
                                != (#[trigger] pools@[y]).address@ by {
                                assert(old_pools[x].address@ != old_pools[y].address@);
                            }
                            assert forall|i: int| 0 <= i < pools@.len() implies {
                                let k = last_record_with(records@, n + 1, (#[trigger] pools@[i]).address@);
                                0 <= k && record_gives(records@[k], pools@[i])
                            } by {
                                if i != j {
                                    assert(old_pools[i].address@ != old_pools[j as int].address@);
                                    assert(old_pools[i] == pools@[i]);
                                    assert(last_record_with(records@, n + 1, pools@[i].address@)
                                        == last_record_with(records@, n as int, old_pools[i].address@));
                                }
                            }
                            assert forall|k: int|
                                0 <= k < n + 1 && record_parses(#[trigger] records@[k]) implies exists|
                                i: int,
                            |
                                0 <= i < pools@.len() && pools@[i].address@ == hex_address_bytes(
                                    records@[k].id@,
                                ) by {
                                if k < n {
                                    let i = choose|i: int|
                                        0 <= i < old_pools.len() && old_pools[i].address@
                                            == hex_address_bytes(records@[k].id@);
                                    assert(pools@[i].address@ == old_pools[i].address@);
                                } else {
                                    assert(pools@[j as int].address@ == hex_address_bytes(
                                        records@[k].id@,
                                    ));
                                }
                            }
                        }
                    },
                    None => {
                        pools.push(pool);
                        proof {
                            assert forall|x: int, y: int|
                                0 <= x < y < pools@.len() implies (#[trigger] pools@[x]).address@
                                != (#[trigger] pools@[y]).address@ by {
                                if y < old_pools.len() {
                                    assert(old_pools[x].address@ != old_pools[y].address@);
                                } else {
                                    assert(old_pools[x].address@ != pool.address@);
                                }
                            }
                            assert forall|i: int| 0 <= i < pools@.len() implies {
                                let k = last_record_with(records@, n + 1, (#[trigger] pools@[i]).address@);
                                0 <= k && record_gives(records@[k], pools@[i])
                            } by {
                                if i < old_pools.len() {
                                    assert(old_pools[i].address@ != pool.address@);
                                    assert(old_pools[i] == pools@[i]);
                                    assert(last_record_with(records@, n + 1, pools@[i].address@)
                                        == last_record_with(records@, n as int, old_pools[i].address@));
                                } else {
                                    assert(pools@[i] == pool);
                                }
                            }
                            assert forall|k: int|
                                0 <= k < n + 1 && record_parses(#[trigger] records@[k]) implies exists|
                                i: int,
                            |
                                0 <= i < pools@.len() && pools@[i].address@ == hex_address_bytes(
                                    records@[k].id@,
                                ) by {
                                if k < n {
                                    let i = choose|i: int|
                                        0 <= i < old_pools.len() && old_pools[i].address@
                                            == hex_address_bytes(records@[k].id@);
                                    assert(pools@[i] == old_pools[i]);
                                } else {
                                    assert(pools@[old_pools.len() as int] == pool);
                                }
                            }
                        }
                    },
                }
            },
        }
        n = n + 1;
    }
    pools
}

/// The WETH address, as a value.
pub open spec fn weth_address_spec() -> Address {
    Address { bytes: [0xc0u8, 0x2a, 0xaa, 0x39, 0xb2, 0x23, 0xfe, 0x8d, 0x0a, 0x0e, 0x5c, 0x4f, 0x27, 0xea, 0xd9, 0x08, 0x3c, 0x75, 0x6c, 0xc2] }
}

/// `pools` is what `pools_from_records` makes of `records`.
pub open spec fn pools_from(records: Seq<PoolRecord>, pools: Seq<Pool>) -> bool {
    &&& addresses_distinct(pools)
    &&& forall|i: int|
        0 <= i < pools.len() ==> {
            let k = last_record_with(records, records.len() as int, (#[trigger] pools[i]).address@);
            0 <= k && record_gives(records[k], pools[i])
        }
    &&& forall|k: int|
        0 <= k < records.len() && record_parses(#[trigger] records[k]) ==> exists|i: int|
            0 <= i < pools.len() && pools[i].address@ == hex_address_bytes(records[k].id@)
}

/// The route search over `pools` between two tokens.
pub open spec fn search_between(
    pools: Seq<Pool>,
    token_in: Address,
    token_out: Address,
    max_hops: nat,
) -> RouteSearch {
    RouteSearch { pools, token_in, token_out, max_hops }
}

/// `routes` are the routes that search `s` finds, in its order.
pub open spec fn routes_of(routes: Seq<Route>, s: RouteSearch) -> bool {
    &&& routes.len() == s.all_routes().len()
    &&& forall|k: int|
        0 <= k < routes.len() ==> route_follows(#[trigger] routes[k], s, s.all_routes()[k])
}

/// `t` is a token of one of the pools.
pub open spec fn is_pool_token(pools: Seq<Pool>, t: Address) -> bool {
    exists|i: int| 0 <= i < pools.len() && (pools[i].token0 == t || pools[i].token1 == t)
}

/// Why a quote cannot be made.
#[derive(Clone, Copy, Debug, PartialEq, Eq, Structural)]
pub enum QuoteError {
    /// The two tokens are the same.
    SameToken,
    /// No route joins the two tokens.
    NoRoute,
    /// No route could be quoted.
    NoValidQuote,
    /// The quoter's reply is shorter than one word.
    UndecodableReply,
}

/// A copy of routes that a search found, which the same search still finds.
fn routes_copy_of(routes: &Vec<Route>, Ghost(s): Ghost<RouteSearch>) -> (r: Vec<Route>)
    requires
        routes_of(routes@, s),
    ensures
        routes_of(r@, s),
{
    let r = copy_routes(routes);
    assert forall|k: int| 0 <= k < r@.len() implies route_follows(
        #[trigger] r@[k],
        s,
        s.all_routes()[k],
    ) by {
        assert(route_follows(routes@[k], s, s.all_routes()[k]));
    }
    r
}

/// Whether `t` is among `v`.
fn contains_address(v: &Vec<Address>, t: Address) -> (r: bool)
    ensures
        r == v@.contains(t),
{
    let mut i: usize = 0;
    while i < v.len()
        invariant
            i <= v@.len(),
            forall|j: int| 0 <= j < i ==> v@[j] != t,
        decreases v.len() - i,
    {
        if v[i] == t {
            return true;
        }
        i = i + 1;
    }
    false
}

/// The tokens of `pools`, each once, in order of first appearance.
fn distinct_tokens(pools: &Vec<Pool>) -> (r: Vec<Address>)
    ensures
        forall|i: int, j: int| 0 <= i < j < r@.len() ==> #[trigger] r@[i] != #[trigger] r@[j],
        forall|t: Address| r@.contains(t) <==> is_pool_token(pools@, t),
{
    let mut r: Vec<Address> = Vec::new();
    let mut n: usize = 0;
    while n < pools.len()
        invariant
            n <= pools@.len(),
            forall|i: int, j: int| 0 <= i < j < r@.len() ==> #[trigger] r@[i] != #[trigger] r@[j],
            forall|t: Address|
                r@.contains(t) <==> exists|i: int|
                    0 <= i < n && (pools@[i].token0 == t || pools@[i].token1 == t),
        decreases pools.len() - n,
    {
        let pool = pools[n];
        let ghost r0 = r@;
        if !contains_address(&r, pool.token0) {
            r.push(pool.token0);
        }
        let ghost r1 = r@;
        if !contains_address(&r, pool.token1) {
            r.push(pool.token1);
        }
        proof {
            assert forall|t: Address| r1.contains(t) <==> (r0.contains(t) || t == pool.token0) by {
                if r1.contains(t) && !r0.contains(t) {
                    let k = choose|k: int| 0 <= k < r1.len() && r1[k] == t;
                    if k < r0.len() {
                        assert(r0[k] == t);
                    }
                }
                if r0.contains(t) {
                    let k = choose|k: int| 0 <= k < r0.len() && r0[k] == t;
                    assert(r1[k] == t);
                }
                if t == pool.token0 && !r0.contains(t) {
                    assert(r1[r0.len() as int] == t);
                }
            }
            assert forall|t: Address| r@.contains(t) <==> (r1.contains(t) || t == pool.token1) by {
                if r@.contains(t) && !r1.contains(t) {
                    let k = choose|k: int| 0 <= k < r@.len() && r@[k] == t;
                    if k < r1.len() {
                        assert(r1[k] == t);
                    }
                }
                if r1.contains(t) {
                    let k = choose|k: int| 0 <= k < r1.len() && r1[k] == t;
                    assert(r@[k] == t);
                }
                if t == pool.token1 && !r1.contains(t) {
                    assert(r@[r1.len() as int] == t);
                }
            }
            assert forall|t: Address|
                r@.contains(t) <==> exists|i: int|
                    0 <= i < n + 1 && (pools@[i].token0 == t || pools@[i].token1 == t) by {
                if r0.contains(t) {
                    let i = choose|i: int|
                        0 <= i < n && (pools@[i].token0 == t || pools@[i].token1 == t);
                }
                if exists|i: int| 0 <= i < n + 1 && (pools@[i].token0 == t || pools@[i].token1 == t) {
                    let i = choose|i: int|
                        0 <= i < n + 1 && (pools@[i].token0 == t || pools@[i].token1 == t);
                    if i < n {
                        assert(r0.contains(t));
                    }
                }
            }
        }
        n = n + 1;
    }
    r
}

/// The pools known to a quoter, and the routes into WETH worked out ahead.
pub struct UniswapV3Quoter {
    pools: Vec<Pool>,
    tokens_to_weth_routes: Vec<(Address, Vec<Route>)>,
}

impl UniswapV3Quoter {
    /// The pools known.
    pub closed spec fn pools(&self) -> Seq<Pool> {
        self.pools@
    }

    /// The tokens whose routes into WETH are kept.
    pub closed spec fn cached_tokens(&self) -> Seq<Address> {
        Seq::new(self.tokens_to_weth_routes@.len(), |k: int| self.tokens_to_weth_routes@[k].0)
    }

    /// Each token kept is not WETH, is kept once, and has its routes into
    /// WETH (at least one) exactly as a search over the pools finds them.
    #[verifier::type_invariant]
    spec fn wf(&self) -> bool {
        &&& forall|k: int|
            0 <= k < self.tokens_to_weth_routes@.len() ==> {
                let e = #[trigger] self.tokens_to_weth_routes@[k];
                &&& e.0@ != spec_weth()
                &&& e.1@.len() > 0
                &&& routes_of(
                    e.1@,
                    search_between(self.pools@, e.0, weth_address_spec(), DEFAULT_MAX_HOPS as nat),
                )
            }
        &&& forall|k: int, l: int|
            0 <= k < l < self.tokens_to_weth_routes@.len() ==> (#[trigger] self.tokens_to_weth_routes@[k]).0
                != (#[trigger] self.tokens_to_weth_routes@[l]).0
    }

    /// A quoter over the pools that `records` describe, with no routes
    /// worked out ahead.
    pub fn new(records: &Vec<PoolRecord>) -> (r: Self)
        ensures
            pools_from(records@, r.pools()),
            r.cached_tokens().len() == 0,
    {
        let pools = pools_from_records(records);
        UniswapV3Quoter { pools, tokens_to_weth_routes: Vec::new() }
    }

    /// The routes from `token_in` to `token_out` through the quoter's pools
    /// with at most `max_hops` pools (2 when `None`), in the search's order.
    pub fn get_all_routes(&self, token_in: Address, token_out: Address, max_hops: Option<u8>) -> (r:
        Vec<Route>)
        ensures
            routes_of(
                r@,
                search_between(
                    self.pools(),
                    token_in,
                    token_out,
                    match max_hops {
                        Some(h) => h as nat,
                        None => DEFAULT_MAX_HOPS as nat,
                    },
                ),
            ),
    {
        let hops = match max_hops {
            Some(h) => h,
            None => DEFAULT_MAX_HOPS,
        };
        let mut compute_route = ComputeRoutes::new(token_in, token_out, copy_pools(&self.pools), hops);
        compute_route.compute_all_univ3_routes();
        let ghost s = compute_route.search();
        let ghost found = compute_route.found();
        let r = compute_route.get_routes();
        proof {
            assert(found =~= s.all_routes());
        }
        r
    }

    /// For each token of `tokens` other than WETH that has a route into
    /// WETH, its routes into WETH, in the order of `tokens`.
    fn compute_tokens_to_weth_routes(&self, tokens: &Vec<Address>) -> (r: Vec<(Address, Vec<Route>)>)
        requires
            forall|i: int, j: int| 0 <= i < j < tokens@.len() ==> #[trigger] tokens@[i] != #[trigger] tokens@[j],
        ensures
            forall|k: int|
                0 <= k < r@.len() ==> {
                    let e = #[trigger] r@[k];
                    &&& e.0@ != spec_weth()
                    &&& e.1@.len() > 0
                    &&& routes_of(
                        e.1@,
                        search_between(self.pools@, e.0, weth_address_spec(), DEFAULT_MAX_HOPS as nat),
                    )
                },
            forall|k: int, l: int| 0 <= k < l < r@.len() ==> (#[trigger] r@[k]).0 != (#[trigger] r@[l]).0,
            forall|t: Address|
                (exists|k: int| 0 <= k < r@.len() && r@[k].0 == t) <==> (tokens@.contains(t) && t@
                    != spec_weth() && search_between(
                    self.pools@,
                    t,
                    weth_address_spec(),
                    DEFAULT_MAX_HOPS as nat,
                ).all_routes().len() > 0),
    {
        let weth = weth_address();
        let mut r: Vec<(Address, Vec<Route>)> = Vec::new();
        let mut n: usize = 0;
        while n < tokens.len()
            invariant
                n <= tokens@.len(),
                weth == weth_address_spec(),
                forall|i: int, j: int| 0 <= i < j < tokens@.len() ==> #[trigger] tokens@[i] != #[trigger] tokens@[j],
                forall|k: int|
                    0 <= k < r@.len() ==> {
                        let e = #[trigger] r@[k];
                        &&& e.0@ != spec_weth()
                        &&& e.1@.len() > 0
                        &&& routes_of(
                            e.1@,
                            search_between(self.pools@, e.0, weth_address_spec(), DEFAULT_MAX_HOPS as nat),
                        )
                        &&& exists|i: int| 0 <= i < n && tokens@[i] == e.0
                    },
                forall|k: int, l: int| 0 <= k < l < r@.len() ==> (#[trigger] r@[k]).0 != (#[trigger] r@[l]).0,
                forall|t: Address|
                    (exists|k: int| 0 <= k < r@.len() && r@[k].0 == t) <==> ((exists|i: int| 0 <= i < n && tokens@[i] == t) && t@
                        != spec_weth() && search_between(
                        self.pools@,
                        t,
                        weth_address_spec(),
                        DEFAULT_MAX_HOPS as nat,
                    ).all_routes().len() > 0),
            decreases tokens.len() - n,
        {
            let token = tokens[n];
            let ghost r0 = r@;
            let ghost s = search_between(self.pools@, token, weth_address_spec(), DEFAULT_MAX_HOPS as nat);
            proof {
                lemma_address_eq_view(token, weth);
            }
            if token != weth {
                let routes = self.get_all_routes(token, weth, Some(DEFAULT_MAX_HOPS));
                if routes.len() > 0 {
                    r.push((token, routes));
                }
            }
            proof {
                assert forall|k: int| 0 <= k < r0.len() implies (exists|i: int| 0 <= i < n && tokens@[i] == (#[trigger] r0[k]).0) by {
                    assert(r@[k] == r0[k]);
                }
                assert forall|k: int| 0 <= k < r0.len() implies (#[trigger] r0[k]).0 != token by {
                    let i = choose|i: int| 0 <= i < n && tokens@[i] == r0[k].0;
                    assert(tokens@[i] != tokens@[n as int]);
                }
                assert forall|k: int| 0 <= k < r@.len() implies (exists|i: int| 0 <= i < n + 1 && tokens@[i] == (#[trigger] r@[k]).0) by {
                    if k < r0.len() {
                        assert(r@[k] == r0[k]);
                        let i = choose|i: int| 0 <= i < n && tokens@[i] == r0[k].0;
                        assert(0 <= i < n + 1 && tokens@[i] == r@[k].0);
                    } else {
                        assert(tokens@[n as int] == r@[k].0);
                    }
                }
                assert forall|t: Address|
                    (exists|k: int| 0 <= k < r@.len() && r@[k].0 == t) <==> ((exists|i: int| 0 <= i < n + 1 && tokens@[i] == t) && t@
                        != spec_weth() && search_between(
                        self.pools@,
                        t,
                        weth_address_spec(),
                        DEFAULT_MAX_HOPS as nat,
                    ).all_routes().len() > 0) by {
                    if exists|k: int| 0 <= k < r@.len() && r@[k].0 == t {
                        let k = choose|k: int| 0 <= k < r@.len() && r@[k].0 == t;
                        if k < r0.len() {
                            assert(r0[k].0 == t);
                            let i = choose|i: int| 0 <= i < n && tokens@[i] == t;
                            assert(0 <= i < n + 1 && tokens@[i] == t);
                        } else {
                            assert(tokens@[n as int] == t);
                        }
                    }
                    if (exists|i: int| 0 <= i < n + 1 && tokens@[i] == t) && t@ != spec_weth()
                        && search_between(self.pools@, t, weth_address_spec(), DEFAULT_MAX_HOPS as nat).all_routes().len() > 0 {
                        let i = choose|i: int| 0 <= i < n + 1 && tokens@[i] == t;
                        if i < n {
                            let k = choose|k: int| 0 <= k < r0.len() && r0[k].0 == t;
                            assert(r@[k] == r0[k]);
                        } else {
                            assert(t == token);
                            assert(t != weth);
                            assert(r@[r0.len() as int].0 == t);
                        }
                    }
                }
            }
            n = n + 1;
        }
        r
    }

    /// A quoter over the pools that `records` describe, with the routes of
    /// each of their tokens into WETH worked out ahead.
    pub fn new_and_precompute_weth_routes(records: &Vec<PoolRecord>) -> (r: Self)
        ensures
            pools_from(records@, r.pools()),
            forall|t: Address|
                r.cached_tokens().contains(t) <==> (is_pool_token(r.pools(), t) && t@ != spec_weth()
                    && search_between(r.pools(), t, weth_address_spec(), DEFAULT_MAX_HOPS as nat).all_routes().len()
                    > 0),
    {
        let mut quoter = Self::new(records);
        let tokens = distinct_tokens(&quoter.pools);
        let cache = quoter.compute_tokens_to_weth_routes(&tokens);
        quoter.tokens_to_weth_routes = cache;
        proof {
            assert forall|t: Address|
                quoter.cached_tokens().contains(t) <==> (exists|k: int|
                    0 <= k < quoter.tokens_to_weth_routes@.len() && quoter.tokens_to_weth_routes@[k].0 == t) by {
                if quoter.cached_tokens().contains(t) {
                    let k = choose|k: int| 0 <= k < quoter.cached_tokens().len() && quoter.cached_tokens()[k] == t;
                    assert(quoter.tokens_to_weth_routes@[k].0 == t);
                }
                if exists|k: int| 0 <= k < quoter.tokens_to_weth_routes@.len() && quoter.tokens_to_weth_routes@[k].0 == t {
                    let k = choose|k: int| 0 <= k < quoter.tokens_to_weth_routes@.len() && quoter.tokens_to_weth_routes@[k].0 == t;
                    assert(quoter.cached_tokens()[k] == t);
                }
            }
        }
        quoter
    }

    /// How many tokens have their routes into WETH kept.
    pub fn cached_token_count(&self) -> (r: usize)
        ensures
            r == self.cached_tokens().len(),
    {
        self.tokens_to_weth_routes.len()
    }

    /// The position of `token` among the kept tokens, if it is one.
    fn find_cached(&self, token: Address) -> (r: Option<usize>)
        ensures
            r matches Some(k) ==> k < self.cached_tokens().len() && self.cached_tokens()[k as int] == token,
            r is None ==> !self.cached_tokens().contains(token),
    {
        let mut k: usize = 0;
        while k < self.tokens_to_weth_routes.len()
            invariant
                k <= self.tokens_to_weth_routes@.len(),
                forall|j: int| 0 <= j < k ==> self.tokens_to_weth_routes@[j].0 != token,
            decreases self.tokens_to_weth_routes.len() - k,
        {
            if self.tokens_to_weth_routes[k].0 == token {
                return Some(k);
            }
            k = k + 1;
        }
        proof {
            if self.cached_tokens().contains(token) {
                let j = choose|j: int| 0 <= j < self.cached_tokens().len() && self.cached_tokens()[j] == token;
                assert(self.tokens_to_weth_routes@[j].0 == token);
            }
        }
        None
    }

    /// Whether the routes of `token` into WETH are kept.
    pub fn has_cached_routes(&self, token: Address) -> (r: bool)
        ensures
            r == self.cached_tokens().contains(token),
    {
        match self.find_cached(token) {
            Some(k) => {
                assert(self.cached_tokens().contains(token));
                true
            },
            None => false,
        }
    }

    /// The routes to quote a swap of `token_in` into `token_out`: every
    /// route with at most two pools, kept ahead for swaps into WETH and
    /// searched for otherwise. Fails when the tokens are the same or no
    /// route joins them.
    pub fn routes_for_quote(&self, token_in: Address, token_out: Address) -> (r: Result<
        Vec<Route>,
        QuoteError,
    >)
        ensures
            token_in == token_out ==> r == Err::<Vec<Route>, QuoteError>(QuoteError::SameToken),
            token_in != token_out && search_between(
                self.pools(),
                token_in,
                token_out,
                DEFAULT_MAX_HOPS as nat,
            ).all_routes().len() == 0 ==> r == Err::<Vec<Route>, QuoteError>(QuoteError::NoRoute),
            token_in != token_out && search_between(
                self.pools(),
                token_in,
                token_out,
                DEFAULT_MAX_HOPS as nat,
            ).all_routes().len() > 0 ==> (r matches Ok(routes) && routes_of(
                routes@,
                search_between(self.pools(), token_in, token_out, DEFAULT_MAX_HOPS as nat),
            )),
    {
        proof {
            use_type_invariant(self);
        }
        if token_in == token_out {
            return Err(QuoteError::SameToken);
        }
        let ghost s = search_between(self.pools@, token_in, token_out, DEFAULT_MAX_HOPS as nat);
        let weth = weth_address();
        let routes = if token_out == weth {
            match self.find_cached(token_in) {
                Some(k) => {
                    assert(routes_of(
                        self.tokens_to_weth_routes@[k as int].1@,
                        search_between(self.pools@, token_in, weth_address_spec(), DEFAULT_MAX_HOPS as nat),
                    ));
                    routes_copy_of(&self.tokens_to_weth_routes[k].1, Ghost(s))
                },
                None => self.get_all_routes(token_in, weth, Some(DEFAULT_MAX_HOPS)),
            }
        } else {
            self.get_all_routes(token_in, token_out, Some(DEFAULT_MAX_HOPS))
        };
        if routes.len() == 0 {
            return Err(QuoteError::NoRoute);
        }
        Ok(routes)
    }
}

/// The quote that wins among those that came back: the largest amount, the
/// last one when several are largest. `None` when no quote came back.
pub fn pick_best_quote(amounts: &Vec<Option<U256>>) -> (r: Option<usize>)
    ensures
        r is None <==> forall|i: int| 0 <= i < amounts@.len() ==> amounts@[i] is None,
        r matches Some(b) ==> {
            &&& b < amounts@.len()
            &&& amounts@[b as int] is Some
            &&& forall|j: int|
                0 <= j < amounts@.len() && amounts@[j] is Some ==> (#[trigger] amounts@[j]).unwrap().value()
                    <= amounts@[b as int].unwrap().value()
            &&& forall|j: int|
                b < j < amounts@.len() && amounts@[j] is Some ==> (#[trigger] amounts@[j]).unwrap().value()
                    < amounts@[b as int].unwrap().value()
        },
{
    let mut best: Option<usize> = None;
    let mut i: usize = 0;
    while i < amounts.len()
        invariant
            i <= amounts@.len(),
            best is None <==> forall|j: int| 0 <= j < i ==> amounts@[j] is None,
            best matches Some(b) ==> {
                &&& b < i
                &&& amounts@[b as int] is Some
                &&& forall|j: int|
                    0 <= j < i && amounts@[j] is Some ==> (#[trigger] amounts@[j]).unwrap().value()
                        <= amounts@[b as int].unwrap().value()
                &&& forall|j: int|
                    b < j < i && amounts@[j] is Some ==> (#[trigger] amounts@[j]).unwrap().value()
                        < amounts@[b as int].unwrap().value()
            },
        decreases amounts.len() - i,
    {
        match &amounts[i] {
            Some(a) => {
                match best {
                    None => {
                        best = Some(i);
                    },
                    Some(b) => {
                        let current = amounts[b].unwrap();
                        if !a.lt(&current) {
                            best = Some(i);
                        }
                    },
                }
            },
            None => {},
        }
        i = i + 1;
    }
    best
}

/// The calldata of a quote of `amount` of `token_in` through the single
/// pool `pool`, exact input unless `trade_type` says otherwise.
pub fn quote_single_calldata(token_in: Address, amount: U256, pool: Pool, trade_type: Option<TradeType>) -> (r: Vec<u8>)
    requires
        pool.fee < 0x100_0000,
    ensures
        r@ == spec_single_quote_calldata(
            amount,
            token_in,
            pool.spec_token_out(token_in),
            pool.fee,
            match trade_type {
                Some(t) => t,
                None => TradeType::ExactInput,
            },
            zeros(20),
        ),
{
    let trade_type = match trade_type {
        Some(t) => t,
        None => TradeType::ExactInput,
    };
    let mut pools: Vec<Pool> = Vec::new();
    pools.push(pool);
    let route = Route { token_in, token_out: pool.get_token_out(token_in), pools };
    assert(route.pools@[0] == pool);
    build_quote_calldata(amount, &route, trade_type, None)
}

/// The amount in the quoter's reply: its first 32-byte word, big-endian.
/// Fails when the reply is shorter than a word.
pub fn decode_quote_reply(reply: &Vec<u8>) -> (r: Result<U256, QuoteError>)
    ensures
        reply@.len() >= 32 <==> r is Ok,
        r matches Ok(v) ==> v@ == reply@.take(32),
        r is Err ==> r == Err::<U256, QuoteError>(QuoteError::UndecodableReply),
{
    match abi_decode_u256(reply.as_slice()) {
        Some(v) => Ok(v),
        None => Err(QuoteError::UndecodableReply),
    }
}

} // verus!
