//! Depth-first enumeration of the Uniswap V3 routes between two tokens.

use vstd::prelude::*;
use crate::address::Address;
use crate::pool::{Pool, Route, copy_pools};
use crate::route_search::{
    RouteSearch, lemma_all_routes_complete, lemma_all_routes_sorted, lemma_all_routes_sound,
    lemma_token_after_push, path_pools, strictly_sorted,
};

verus! {

/// `route` goes from the search's `token_in` to its `token_out` through the
/// pools at the positions of `path`.
pub open spec fn route_follows(route: Route, s: RouteSearch, path: Seq<int>) -> bool {
    &&& route.token_in == s.token_in
    &&& route.token_out == s.token_out
    &&& route.pools@ == path_pools(s.pools, path)
}

/// State of a route search: the problem, the pools in use on the current
/// partial route, and the routes found so far.
pub struct ComputeRoutes {
    token_in: Address,
    token_out: Address,
    pools: Vec<Pool>,
    max_hops: u8,
    pools_used: Vec<bool>,
    routes: Vec<Route>,
    paths: Ghost<Seq<Seq<int>>>,
}

impl ComputeRoutes {
    /// The problem being solved.
    pub closed spec fn search(&self) -> RouteSearch {
        RouteSearch {
            pools: self.pools@,
            token_in: self.token_in,
            token_out: self.token_out,
            max_hops: self.max_hops as nat,
        }
    }

    /// The routes found so far, as lists of pool positions.
    pub closed spec fn found(&self) -> Seq<Seq<int>> {
        self.paths@
    }

    spec fn routes_match(&self) -> bool {
        &&& self.pools_used@.len() == self.pools@.len()
        &&& self.routes@.len() == self.paths@.len()
        &&& forall|k: int|
            0 <= k < self.routes@.len() ==> route_follows(
                #[trigger] self.routes@[k],
                self.search(),
                self.paths@[k],
            )
    }

    /// Between searches no pool is in use, and each route found follows its
    /// list of pool positions.
    pub closed spec fn wf(&self) -> bool {
        &&& self.routes_match()
        &&& forall|j: int| 0 <= j < self.pools_used@.len() ==> !#[trigger] self.pools_used@[j]
    }

    /// A search for the routes from `token_in` to `token_out` through
    /// `pools` with at most `max_hops` pools, with nothing found yet.
    pub fn new(token_in: Address, token_out: Address, pools: Vec<Pool>, max_hops: u8) -> (r: Self)
        ensures
            r.wf(),
            r.search() == (RouteSearch {
                pools: pools@,
                token_in,
                token_out,
                max_hops: max_hops as nat,
            }),
            r.found() == Seq::<Seq<int>>::empty(),
    {
        let pool_len = pools.len();
        let mut pools_used: Vec<bool> = Vec::new();
        let mut i: usize = 0;
        while i < pool_len
            invariant
                i <= pool_len,
                pools_used@.len() == i,
                forall|j: int| 0 <= j < i ==> !#[trigger] pools_used@[j],
            decreases pool_len - i,
        {
            pools_used.push(false);
            i = i + 1;
        }
        ComputeRoutes {
            token_in,
            token_out,
            pools,
            max_hops,
            pools_used,
            routes: Vec::new(),
            paths: Ghost(Seq::empty()),
        }
    }

    /// The routes found, in the order found.
    pub fn get_routes(self) -> (r: Vec<Route>)
        requires
            self.wf(),
        ensures
            r@.len() == self.found().len(),
            forall|k: int|
                0 <= k < r@.len() ==> route_follows(#[trigger] r@[k], self.search(), self.found()[k]),
    {
        self.routes
    }

    /// Finds every route of the problem and appends them, in increasing
    /// lexicographic order of their pool positions, to the routes found.
    pub fn compute_all_univ3_routes(&mut self)
        requires
            old(self).wf(),
        ensures
            final(self).wf(),
            final(self).search() == old(self).search(),
            final(self).found() == old(self).found() + old(self).search().all_routes(),
            forall|k: int|
                old(self).found().len() <= k < final(self).found().len() ==> old(
                    self,
                ).search().is_route_path(#[trigger] final(self).found()[k]),
            forall|p: Seq<int>|
                old(self).search().is_route_path(p) ==> #[trigger] final(self).found().subrange(
                    old(self).found().len() as int,
                    final(self).found().len() as int,
                ).contains(p),
            strictly_sorted(
                final(self).found().subrange(
                    old(self).found().len() as int,
                    final(self).found().len() as int,
                ),
            ),
    {
        let ghost s = self.search();
        let ghost f0 = self.found();
        let mut current_route: Vec<Pool> = Vec::new();
        let ghost empty: Seq<int> = seq![];
        proof {
            assert(current_route@ =~= path_pools(s.pools, empty));
            assert forall|j: int| 0 <= j < self.pools@.len() implies self.pools_used@[j] == empty.contains(j) by {
            }
        }
        self.compute_routes(&mut current_route, None, Ghost(empty));
        proof {
            lemma_all_routes_sound(s);
            lemma_all_routes_sorted(s);
            let fresh = self.found().subrange(f0.len() as int, self.found().len() as int);
            assert(fresh =~= s.all_routes());
            assert forall|p: Seq<int>| s.is_route_path(p) implies #[trigger] self.found().subrange(
                f0.len() as int,
                self.found().len() as int,
            ).contains(p) by {
                lemma_all_routes_complete(s, p);
            }
            assert forall|k: int| f0.len() <= k < self.found().len() implies s.is_route_path(
                #[trigger] self.found()[k],
            ) by {
                assert(self.found()[k] == s.all_routes()[k - f0.len()]);
            }
        }
    }

    /// Extends the partial route `cp`, whose pools are `current_route` and
    /// which ends holding `previous_token_out` (or `token_in` when `None`),
    /// and appends the routes found below it.
    fn compute_routes(
        &mut self,
        current_route: &mut Vec<Pool>,
        previous_token_out: Option<Address>,
        Ghost(cp): Ghost<Seq<int>>,
    )
        requires
            old(self).routes_match(),
            forall|k: int| 0 <= k < cp.len() ==> 0 <= #[trigger] cp[k] < old(self).pools@.len(),
            old(current_route)@ == path_pools(old(self).pools@, cp),
            forall|j: int|
                0 <= j < old(self).pools@.len() ==> #[trigger] old(self).pools_used@[j]
                    == cp.contains(j),
            (match previous_token_out {
                Some(t) => t,
                None => old(self).token_in,
            }) == old(self).search().token_after(cp),
        ensures
            final(self).routes_match(),
            final(self).search() == old(self).search(),
            final(self).pools_used@ == old(self).pools_used@,
            final(current_route)@ == old(current_route)@,
            final(self).paths@ == old(self).paths@ + old(self).search().dfs(cp),
        decreases old(self).max_hops + 1 - cp.len(),
    {
        let ghost s = self.search();
        assert(s.max_hops == old(self).max_hops);
        if current_route.len() > self.max_hops as usize {
            proof {
                assert(s.dfs(cp) =~= Seq::<Seq<int>>::empty());
                assert(self.paths@ =~= self.paths@ + s.dfs(cp));
            }
            return;
        }
        let n = current_route.len();
        if n > 0 && current_route[n - 1].involves_token(self.token_out) {
            let pools_copy = copy_pools(current_route);
            let route = Route { token_in: self.token_in, token_out: self.token_out, pools: pools_copy };
            self.routes.push(route);
            self.paths = Ghost(self.paths@.push(cp));
            proof {
                assert(cp.last() == cp[n - 1]);
                assert(s.dfs(cp) == seq![cp]);
                assert(self.paths@ =~= old(self).paths@ + s.dfs(cp));
                assert forall|k: int| 0 <= k < self.routes@.len() implies route_follows(
                    #[trigger] self.routes@[k],
                    self.search(),
                    self.paths@[k],
                ) by {
                    if k < self.routes@.len() - 1 {
                        assert(self.routes@[k] == old(self).routes@[k]);
                    }
                }
            }
            return;
        }
        let previous = match previous_token_out {
            Some(t) => t,
            None => self.token_in,
        };
        let ghost p0 = self.paths@;
        let ghost used0 = self.pools_used@;
        let ghost route0 = current_route@;
        proof {
            assert(s.dfs(cp) == s.dfs_from(cp, 0));
        }
        let mut i: usize = 0;
        while i < self.pools.len()
            invariant
                self.routes_match(),
                self.search() == s,
                s.max_hops == old(self).max_hops,
                self.pools_used@ == used0,
                current_route@ == route0,
                route0 == path_pools(s.pools, cp),
                i <= s.pools.len(),
                cp.len() <= s.max_hops,
                forall|k: int| 0 <= k < cp.len() ==> 0 <= #[trigger] cp[k] < s.pools.len(),
                forall|j: int| 0 <= j < s.pools.len() ==> #[trigger] used0[j] == cp.contains(j),
                previous == s.token_after(cp),
                p0 + s.dfs_from(cp, 0) == self.paths@ + s.dfs_from(cp, i as int),
            decreases self.pools@.len() - i,
        {
            let ghost before = self.paths@;
            if self.pools_used[i] {
                proof {
                    assert(s.dfs_from(cp, i as int) == s.dfs_from(cp, i + 1));
                }
                i = i + 1;
                continue;
            }
            let cur_pool = self.pools[i];
            if !cur_pool.involves_token(previous) {
                proof {
                    assert(s.dfs_from(cp, i as int) == s.dfs_from(cp, i + 1));
                }
                i = i + 1;
                continue;
            }
            let current_token_out = cur_pool.get_token_out(previous);
            let ghost cp2 = cp.push(i as int);
            proof {
                lemma_token_after_push(s, cp, i as int);
            }
            current_route.push(cur_pool);
            self.pools_used.set(i, true);
            proof {
                assert(current_route@ =~= path_pools(s.pools, cp2));
                assert forall|j: int| 0 <= j < s.pools.len() implies #[trigger] self.pools_used@[j]
                    == cp2.contains(j) by {
                    if j == i {
                        assert(cp2[cp.len() as int] == j);
                    } else {
                        if cp2.contains(j) {
                            let k = choose|k: int| 0 <= k < cp2.len() && cp2[k] == j;
                            assert(cp[k] == j);
                        }
                        if cp.contains(j) {
                            let k = choose|k: int| 0 <= k < cp.len() && cp[k] == j;
                            assert(cp2[k] == j);
                        }
                    }
                }
            }
            self.compute_routes(current_route, Some(current_token_out), Ghost(cp2));
            self.pools_used.set(i, false);
            current_route.pop();
            proof {
                assert(self.pools_used@ =~= used0);
                assert(current_route@ =~= route0);
                let here = s.dfs(cp2);
                assert(s.dfs_from(cp, i as int) == here + s.dfs_from(cp, i + 1));
                assert(before + (here + s.dfs_from(cp, i + 1)) =~= (before + here) + s.dfs_from(
                    cp,
                    i + 1,
                ));
            }
            i = i + 1;
        }
        proof {
            assert(s.dfs_from(cp, i as int) =~= Seq::<Seq<int>>::empty());
            assert(self.paths@ + s.dfs_from(cp, i as int) =~= self.paths@);
        }
    }
}

} // verus!
