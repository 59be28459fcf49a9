//! What a route search finds: the routes through a list of pools, described
//! by the positions of the pools they use, and the laws that describe the
//! depth-first enumeration of them.

use vstd::prelude::*;
use crate::address::Address;
use crate::pool::Pool;

verus! {

/// The pools picked by `path`, in order.
pub open spec fn path_pools(pools: Seq<Pool>, path: Seq<int>) -> Seq<Pool> {
    path.map_values(|i: int| pools[i])
}

/// `prefix` is an initial part of `path`.
pub open spec fn is_prefix(prefix: Seq<int>, path: Seq<int>) -> bool {
    prefix.len() <= path.len() && path.take(prefix.len() as int) == prefix
}

/// Lexicographic order on position lists: a proper prefix comes first,
/// otherwise the first differing position decides.
pub open spec fn lex_lt(a: Seq<int>, b: Seq<int>) -> bool
    decreases a.len(),
{
    if a.len() == 0 {
        b.len() > 0
    } else if b.len() == 0 {
        false
    } else if a[0] != b[0] {
        a[0] < b[0]
    } else {
        lex_lt(a.skip(1), b.skip(1))
    }
}

/// Every element comes strictly before every later one.
pub open spec fn strictly_sorted(r: Seq<Seq<int>>) -> bool {
    forall|i: int, j: int| 0 <= i < j < r.len() ==> lex_lt(#[trigger] r[i], #[trigger] r[j])
}

/// A route search problem: the pools, the two tokens and the hop limit.
pub struct RouteSearch {
    pub pools: Seq<Pool>,
    pub token_in: Address,
    pub token_out: Address,
    pub max_hops: nat,
}

impl RouteSearch {
    /// The token held after swapping `token_in` through the pools of `path`.
    pub open spec fn token_after(self, path: Seq<int>) -> Address
        decreases path.len(),
    {
        if path.len() == 0 {
            self.token_in
        } else {
            self.pools[path.last()].spec_token_out(self.token_after(path.drop_last()))
        }
    }

    /// Every position is a pool of the list, and no pool is used twice.
    pub open spec fn indices_ok(self, path: Seq<int>) -> bool {
        &&& forall|k: int| 0 <= k < path.len() ==> 0 <= #[trigger] path[k] < self.pools.len()
        &&& forall|k: int, l: int| 0 <= k < l < path.len() ==> #[trigger] path[k] != #[trigger] path[l]
    }

    /// Each pool of the path trades the token held when it is reached.
    pub open spec fn chained(self, path: Seq<int>) -> bool {
        forall|k: int|
            0 <= k < path.len() ==> #[trigger] self.pools[path[k]].spec_involves(
                self.token_after(path.take(k)),
            )
    }

    /// None of the first `n` pools of the path trades `token_out`.
    pub open spec fn open_before(self, path: Seq<int>, n: int) -> bool {
        forall|k: int| 0 <= k < n ==> !#[trigger] self.pools[path[k]].spec_involves(self.token_out)
    }

    /// A route that the search reports: one to `max_hops` distinct pools,
    /// chained from `token_in`, where the last pool is the first one that
    /// trades `token_out`.
    pub open spec fn is_route_path(self, path: Seq<int>) -> bool {
        &&& 1 <= path.len() <= self.max_hops
        &&& self.indices_ok(path)
        &&& self.chained(path)
        &&& self.open_before(path, path.len() - 1)
        &&& self.pools[path.last()].spec_involves(self.token_out)
    }

    /// A path that the search can still be extending.
    pub open spec fn valid_prefix(self, path: Seq<int>) -> bool {
        &&& self.indices_ok(path)
        &&& self.chained(path)
        &&& self.open_before(path, path.len() - 1)
    }

    /// The routes found below the partial route `cp`, in the order in which
    /// a depth-first search that tries pools by increasing position finds them.
    pub open spec fn dfs(self, cp: Seq<int>) -> Seq<Seq<int>>
        decreases self.max_hops + 1 - cp.len(), self.pools.len() + 1,
    {
        if cp.len() > self.max_hops {
            seq![]
        } else if cp.len() > 0 && self.pools[cp.last()].spec_involves(self.token_out) {
            seq![cp]
        } else {
            self.dfs_from(cp, 0)
        }
    }

    /// The routes below `cp` whose next pool is at position `i` or later.
    pub open spec fn dfs_from(self, cp: Seq<int>, i: int) -> Seq<Seq<int>>
        decreases self.max_hops + 1 - cp.len(), self.pools.len() - i,
    {
        if cp.len() > self.max_hops || i < 0 || i >= self.pools.len() {
            seq![]
        } else {
            let here = if !cp.contains(i) && self.pools[i].spec_involves(self.token_after(cp)) {
                self.dfs(cp.push(i))
            } else {
                seq![]
            };
            here + self.dfs_from(cp, i + 1)
        }
    }

    /// All routes of the search, in the order of the search.
    pub open spec fn all_routes(self) -> Seq<Seq<int>> {
        self.dfs(seq![])
    }
}

/// Extending a path by one pool: the token held afterwards.
pub proof fn lemma_token_after_push(s: RouteSearch, cp: Seq<int>, i: int)
    ensures
        s.token_after(cp.push(i)) == s.pools[i].spec_token_out(s.token_after(cp)),
{
    assert(cp.push(i).drop_last() =~= cp);
}

/// A valid prefix of a valid prefix is a valid prefix, with the same tokens.
proof fn lemma_take_of_push(cp: Seq<int>, i: int, k: int)
    requires
        0 <= k <= cp.len(),
    ensures
        cp.push(i).take(k) == cp.take(k),
{
    assert(cp.push(i).take(k) =~= cp.take(k));
}

/// Extending an open valid prefix by a fresh pool that trades the token held
/// gives a valid prefix.
proof fn lemma_push_valid(s: RouteSearch, cp: Seq<int>, i: int)
    requires
        s.valid_prefix(cp),
        cp.len() > 0 ==> !s.pools[cp.last()].spec_involves(s.token_out),
        0 <= i < s.pools.len(),
        !cp.contains(i),
        s.pools[i].spec_involves(s.token_after(cp)),
    ensures
        s.valid_prefix(cp.push(i)),
{
    let cp2 = cp.push(i);
    assert forall|k: int, l: int| 0 <= k < l < cp2.len() implies #[trigger] cp2[k] != #[trigger] cp2[l] by {
        if l == cp.len() {
            assert(cp[k] == cp2[k]);
            if cp[k] == i {
                assert(cp.contains(i));
            }
        }
    }
    assert forall|k: int| 0 <= k < cp2.len() implies #[trigger] s.pools[cp2[k]].spec_involves(
        s.token_after(cp2.take(k)),
    ) by {
        lemma_take_of_push(cp, i, k);
        if k == cp.len() {
            assert(cp.take(k) =~= cp);
        }
    }
}

/// Each route reported below a valid prefix is a route, extending that prefix.
proof fn lemma_dfs_sound(s: RouteSearch, cp: Seq<int>)
    requires
        s.valid_prefix(cp),
    ensures
        forall|k: int|
            0 <= k < s.dfs(cp).len() ==> s.is_route_path(#[trigger] s.dfs(cp)[k]) && is_prefix(
                cp,
                s.dfs(cp)[k],
            ),
    decreases s.max_hops + 1 - cp.len(), s.pools.len() + 1,
{
    if cp.len() > s.max_hops {
    } else if cp.len() > 0 && s.pools[cp.last()].spec_involves(s.token_out) {
        assert(s.dfs(cp) == seq![cp]);
        assert(s.dfs(cp)[0] == cp);
        assert(cp.take(cp.len() as int) =~= cp);
        assert(s.is_route_path(cp));
    } else {
        assert(s.dfs(cp) == s.dfs_from(cp, 0));
        lemma_dfs_from_sound(s, cp, 0);
    }
}

/// Each route reported below an open valid prefix from position `i` on is a
/// route, extending that prefix, whose next pool is at `i` or later.
proof fn lemma_dfs_from_sound(s: RouteSearch, cp: Seq<int>, i: int)
    requires
        s.valid_prefix(cp),
        cp.len() > 0 ==> !s.pools[cp.last()].spec_involves(s.token_out),
        cp.len() <= s.max_hops,
        0 <= i,
    ensures
        forall|k: int|
            0 <= k < s.dfs_from(cp, i).len() ==> {
                let p = #[trigger] s.dfs_from(cp, i)[k];
                &&& s.is_route_path(p)
                &&& is_prefix(cp, p)
                &&& cp.len() < p.len()
                &&& i <= p[cp.len() as int]
            },
    decreases s.max_hops + 1 - cp.len(), s.pools.len() - i,
{
    if i >= s.pools.len() {
    } else {
        let here = if !cp.contains(i) && s.pools[i].spec_involves(s.token_after(cp)) {
            s.dfs(cp.push(i))
        } else {
            seq![]
        };
        let rest = s.dfs_from(cp, i + 1);
        lemma_dfs_from_sound(s, cp, i + 1);
        if !cp.contains(i) && s.pools[i].spec_involves(s.token_after(cp)) {
            lemma_push_valid(s, cp, i);
            lemma_dfs_sound(s, cp.push(i));
            assert forall|k: int| 0 <= k < here.len() implies {
                let p = #[trigger] here[k];
                &&& is_prefix(cp, p)
                &&& cp.len() < p.len()
                &&& i <= p[cp.len() as int]
            } by {
                let p = here[k];
                assert(is_prefix(cp.push(i), p));
                assert(p.take(cp.len() + 1int)[cp.len() as int] == p[cp.len() as int]);
                assert(p.take(cp.len() as int) =~= p.take(cp.len() + 1int).take(cp.len() as int));
                assert(cp.push(i).take(cp.len() as int) =~= cp);
            }
        }
        assert(s.dfs_from(cp, i) == here + rest);
        assert forall|k: int| 0 <= k < s.dfs_from(cp, i).len() implies {
            let p = #[trigger] s.dfs_from(cp, i)[k];
            &&& s.is_route_path(p)
            &&& is_prefix(cp, p)
            &&& cp.len() < p.len()
            &&& i <= p[cp.len() as int]
        } by {
            if k < here.len() {
                assert(s.dfs_from(cp, i)[k] == here[k]);
            } else {
                assert(s.dfs_from(cp, i)[k] == rest[k - here.len()]);
            }
        }
    }
}

/// Soundness: every route that the search reports is a route of the
/// problem, that is, it starts at `token_in`, chains its distinct pools,
/// stops at the first pool that trades `token_out`, and has at most
/// `max_hops` pools.
pub proof fn lemma_all_routes_sound(s: RouteSearch)
    ensures
        forall|k: int|
            0 <= k < s.all_routes().len() ==> s.is_route_path(#[trigger] s.all_routes()[k]),
{
    let e: Seq<int> = seq![];
    lemma_dfs_sound(s, e);
}

/// A prefix of a route is a valid prefix, and open when it is a proper one.
proof fn lemma_prefix_of_route(s: RouteSearch, cp: Seq<int>, p: Seq<int>)
    requires
        s.is_route_path(p),
        is_prefix(cp, p),
    ensures
        s.valid_prefix(cp),
        forall|k: int| 0 <= k < cp.len() ==> cp[k] == #[trigger] p[k],
        cp.len() > 0 && cp.len() < p.len() ==> !s.pools[cp.last()].spec_involves(s.token_out),
{
    assert forall|k: int| 0 <= k < cp.len() implies cp[k] == #[trigger] p[k] by {
        assert(p.take(cp.len() as int)[k] == p[k]);
    }
    assert forall|k: int| 0 <= k < cp.len() implies #[trigger] s.pools[cp[k]].spec_involves(
        s.token_after(cp.take(k)),
    ) by {
        assert(cp.take(k) =~= p.take(k));
        assert(cp[k] == p[k]);
    }
    assert forall|k: int, l: int| 0 <= k < l < cp.len() implies #[trigger] cp[k] != #[trigger] cp[l] by {
        assert(cp[k] == p[k]);
        assert(cp[l] == p[l]);
    }
    assert forall|k: int| 0 <= k < cp.len() - 1 implies !#[trigger] s.pools[cp[k]].spec_involves(
        s.token_out,
    ) by {
        assert(cp[k] == p[k]);
    }
    if cp.len() > 0 && cp.len() < p.len() {
        assert(cp.last() == p[cp.len() - 1]);
    }
}

/// `x` occurs in the concatenation when it occurs in the first part.
proof fn lemma_contains_left(a: Seq<Seq<int>>, b: Seq<Seq<int>>, x: Seq<int>)
    requires
        a.contains(x),
    ensures
        (a + b).contains(x),
{
    let k = choose|k: int| 0 <= k < a.len() && a[k] == x;
    assert((a + b)[k] == x);
}

/// `x` occurs in the concatenation when it occurs in the second part.
proof fn lemma_contains_right(a: Seq<Seq<int>>, b: Seq<Seq<int>>, x: Seq<int>)
    requires
        b.contains(x),
    ensures
        (a + b).contains(x),
{
    let k = choose|k: int| 0 <= k < b.len() && b[k] == x;
    assert((a + b)[a.len() + k] == x);
}

/// Every route that extends `cp` is found below `cp`.
proof fn lemma_dfs_complete(s: RouteSearch, cp: Seq<int>, p: Seq<int>)
    requires
        s.is_route_path(p),
        is_prefix(cp, p),
    ensures
        s.dfs(cp).contains(p),
    decreases s.max_hops + 1 - cp.len(), s.pools.len() + 1,
{
    lemma_prefix_of_route(s, cp, p);
    if cp.len() > 0 && s.pools[cp.last()].spec_involves(s.token_out) {
        if cp.len() < p.len() {
            assert(!s.pools[p[cp.len() - 1]].spec_involves(s.token_out));
        }
        assert(p.take(p.len() as int) =~= p);
        assert(s.dfs(cp) == seq![cp]);
        assert(s.dfs(cp)[0] == p);
    } else {
        if cp.len() == p.len() {
            assert(p.take(p.len() as int) =~= p);
            assert(p.last() == cp.last());
        }
        assert(s.dfs(cp) == s.dfs_from(cp, 0));
        lemma_dfs_from_complete(s, cp, 0, p);
    }
}

/// Every route that extends `cp` and whose next pool is at position `j` or
/// later is found below `cp` from `j` on.
proof fn lemma_dfs_from_complete(s: RouteSearch, cp: Seq<int>, j: int, p: Seq<int>)
    requires
        s.is_route_path(p),
        is_prefix(cp, p),
        cp.len() < p.len(),
        0 <= j <= p[cp.len() as int],
    ensures
        s.dfs_from(cp, j).contains(p),
    decreases s.max_hops + 1 - cp.len(), s.pools.len() - j,
{
    lemma_prefix_of_route(s, cp, p);
    let n = cp.len() as int;
    let i = p[n];
    let here = if !cp.contains(j) && s.pools[j].spec_involves(s.token_after(cp)) {
        s.dfs(cp.push(j))
    } else {
        seq![]
    };
    let rest = s.dfs_from(cp, j + 1);
    assert(s.dfs_from(cp, j) == here + rest);
    if j == i {
        if cp.contains(i) {
            let k = choose|k: int| 0 <= k < cp.len() && cp[k] == i;
            assert(p[k] == cp[k]);
            assert(p[k] != p[n]);
        }
        assert(p.take(n) =~= cp);
        assert(s.pools[p[n]].spec_involves(s.token_after(p.take(n))));
        assert(p.take(n + 1) =~= cp.push(i));
        lemma_dfs_complete(s, cp.push(i), p);
        lemma_contains_left(here, rest, p);
    } else {
        lemma_dfs_from_complete(s, cp, j + 1, p);
        lemma_contains_right(here, rest, p);
    }
}

/// Completeness: every route of the problem is reported by the search.
pub proof fn lemma_all_routes_complete(s: RouteSearch, p: Seq<int>)
    requires
        s.is_route_path(p),
    ensures
        s.all_routes().contains(p),
{
    let e: Seq<int> = seq![];
    assert(p.take(0) =~= e);
    lemma_dfs_complete(s, e, p);
}

/// Two paths that agree before position `n` and differ there are ordered by
/// their elements at `n`.
proof fn lemma_lex_first_diff(a: Seq<int>, b: Seq<int>, n: int)
    requires
        0 <= n < a.len(),
        n < b.len(),
        a.take(n) == b.take(n),
        a[n] < b[n],
    ensures
        lex_lt(a, b),
    decreases n,
{
    if n > 0 {
        assert(a[0] == a.take(n)[0]);
        assert(b[0] == b.take(n)[0]);
        let a1 = a.skip(1);
        let b1 = b.skip(1);
        assert forall|k: int| 0 <= k < n - 1 implies #[trigger] a1.take(n - 1)[k] == b1.take(
            n - 1,
        )[k] by {
            assert(a1.take(n - 1)[k] == a[k + 1]);
            assert(b1.take(n - 1)[k] == b[k + 1]);
            assert(a.take(n)[k + 1] == a[k + 1]);
            assert(b.take(n)[k + 1] == b[k + 1]);
        }
        assert(a1.take(n - 1) =~= b1.take(n - 1));
        assert(a1[n - 1] == a[n]);
        assert(b1[n - 1] == b[n]);
        lemma_lex_first_diff(a1, b1, n - 1);
    }
}

/// No path comes before itself.
proof fn lemma_lex_irreflexive(a: Seq<int>)
    ensures
        !lex_lt(a, a),
    decreases a.len(),
{
    if a.len() > 0 {
        lemma_lex_irreflexive(a.skip(1));
    }
}

/// The routes below a valid prefix come in strictly increasing order.
proof fn lemma_dfs_sorted(s: RouteSearch, cp: Seq<int>)
    requires
        s.valid_prefix(cp),
    ensures
        strictly_sorted(s.dfs(cp)),
    decreases s.max_hops + 1 - cp.len(), s.pools.len() + 1,
{
    if cp.len() > s.max_hops {
    } else if cp.len() > 0 && s.pools[cp.last()].spec_involves(s.token_out) {
        assert(s.dfs(cp) == seq![cp]);
    } else {
        assert(s.dfs(cp) == s.dfs_from(cp, 0));
        lemma_dfs_from_sorted(s, cp, 0);
    }
}

/// The routes below an open valid prefix from position `i` on come in
/// strictly increasing order.
proof fn lemma_dfs_from_sorted(s: RouteSearch, cp: Seq<int>, i: int)
    requires
        s.valid_prefix(cp),
        cp.len() > 0 ==> !s.pools[cp.last()].spec_involves(s.token_out),
        cp.len() <= s.max_hops,
        0 <= i,
    ensures
        strictly_sorted(s.dfs_from(cp, i)),
    decreases s.max_hops + 1 - cp.len(), s.pools.len() - i,
{
    if i < s.pools.len() {
        let n = cp.len() as int;
        let branch = !cp.contains(i) && s.pools[i].spec_involves(s.token_after(cp));
        let here = if branch {
            s.dfs(cp.push(i))
        } else {
            seq![]
        };
        let rest = s.dfs_from(cp, i + 1);
        let all = s.dfs_from(cp, i);
        assert(all == here + rest);
        lemma_dfs_from_sorted(s, cp, i + 1);
        lemma_dfs_from_sound(s, cp, i + 1);
        if branch {
            lemma_push_valid(s, cp, i);
            lemma_dfs_sorted(s, cp.push(i));
            lemma_dfs_sound(s, cp.push(i));
        }
        assert forall|x: int, y: int| 0 <= x < y < all.len() implies lex_lt(
            #[trigger] all[x],
            #[trigger] all[y],
        ) by {
            if y < here.len() {
                assert(all[x] == here[x]);
                assert(all[y] == here[y]);
            } else if x >= here.len() {
                assert(all[x] == rest[x - here.len()]);
                assert(all[y] == rest[y - here.len()]);
            } else {
                let a = here[x];
                let b = rest[y - here.len()];
                assert(all[x] == a);
                assert(all[y] == b);
                assert(is_prefix(cp.push(i), a));
                assert(a.take(n + 1)[n] == a[n]);
                assert(cp.push(i)[n] == i);
                assert(a.take(n) =~= a.take(n + 1).take(n));
                assert(cp.push(i).take(n) =~= cp);
                assert(is_prefix(cp, b));
                lemma_lex_first_diff(a, b, n);
            }
        }
    }
}

/// Order: the search reports its routes in strictly increasing
/// lexicographic order of their pool positions, so none is reported twice.
pub proof fn lemma_all_routes_sorted(s: RouteSearch)
    ensures
        strictly_sorted(s.all_routes()),
        forall|i: int, j: int|
            0 <= i < j < s.all_routes().len() ==> #[trigger] s.all_routes()[i]
                != #[trigger] s.all_routes()[j],
{
    let e: Seq<int> = seq![];
    lemma_dfs_sorted(s, e);
    assert forall|i: int, j: int| 0 <= i < j < s.all_routes().len() implies #[trigger] s.all_routes()[i]
        != #[trigger] s.all_routes()[j] by {
        lemma_lex_irreflexive(s.all_routes()[i]);
    }
}

/// What comes out of a pool is one of its two tokens.
proof fn lemma_token_out_is_pool_token(pool: Pool, t: Address)
    ensures
        pool.spec_involves(pool.spec_token_out(t)),
{
}

/// Every route swaps `token_in` into `token_out`: following its pools from
/// `token_in` ends holding `token_out` (when the two tokens differ).
pub proof fn lemma_route_reaches_token_out(s: RouteSearch, p: Seq<int>)
    requires
        s.is_route_path(p),
        s.token_in != s.token_out,
    ensures
        s.token_after(p) == s.token_out,
{
    let n = p.len() as int;
    let pool = s.pools[p.last()];
    let prev = s.token_after(p.drop_last());
    assert(p.take(n - 1) =~= p.drop_last());
    assert(s.pools[p[n - 1]].spec_involves(s.token_after(p.take(n - 1))));
    if prev == s.token_out {
        if n >= 2 {
            let d = p.drop_last();
            assert(d.last() == p[n - 2]);
            lemma_token_out_is_pool_token(s.pools[d.last()], s.token_after(d.drop_last()));
            assert(s.pools[p[n - 2]].spec_involves(s.token_out));
        }
    }
}

} // verus!
