//! The depth-bounded decomposer: a recursive, depth-pruned, exhaustive
//! search over additive and multiplicative splits of the target, returning
//! the shallowest expression tree it finds.
//!
//! Each call carries a depth ceiling. The ceiling is tightened to one below
//! the best depth found so far, so later candidates are explored only where
//! they could still improve on it; when it reaches zero the remaining
//! candidates at that level are abandoned. The pruning can hide a solution
//! exactly one level below the one returned, and no more: the contracts
//! below state the returned depth is within one of the least depth at which
//! the target is splittable at all, and that a `None` outcome rules every
//! depth out.

use vstd::arithmetic::div_mod::{lemma_fundamental_div_mod, lemma_fundamental_div_mod_converse};
use vstd::prelude::*;

use crate::expr::{contains_u64, depth, eval, leaves_in, Node, Op, Operation};

verus! {

/// Holds when `n = i op j` is one of the splits the search explores:
/// a sum `i + j == n` with `1 <= i < j`, or a product `i * j == n` with
/// `1 < i < j`. Splits with equal halves and the trivial divisor 1 are
/// outside the search space.
pub open spec fn is_split(n: u64, i: u64, j: u64) -> bool {
    (i + j == n && 1 <= i < j) || (i * j == n && 1 < i < j)
}

/// Holds when `n` is representable by an expression tree of depth at most
/// `d` over the explored splits, with every leaf drawn from `s`.
pub open spec fn splittable(n: u64, s: Seq<u64>, d: nat) -> bool
    decreases d,
{
    s.contains(n) || (d >= 1 && exists|i: u64, j: u64|
        #[trigger] is_split(n, i, j)
        && splittable(i, s, (d - 1) as nat)
        && splittable(j, s, (d - 1) as nat))
}

/// A depth budget that always suffices: whatever can be split at all can
/// be split within a budget below `n` itself.
pub open spec fn fuel_bound(n: u64) -> nat {
    if n == 0 {
        0
    } else {
        (n - 1) as nat
    }
}

/// Splittability is monotone in the depth budget.
pub proof fn lemma_splittable_mono(n: u64, s: Seq<u64>, d1: nat, d2: nat)
    requires
        splittable(n, s, d1),
        d1 <= d2,
    ensures
        splittable(n, s, d2),
    decreases d1,
{
    if !s.contains(n) {
        let (i, j) = choose|i: u64, j: u64|
            #[trigger] is_split(n, i, j)
            && splittable(i, s, (d1 - 1) as nat)
            && splittable(j, s, (d1 - 1) as nat);
        lemma_splittable_mono(i, s, (d1 - 1) as nat, (d2 - 1) as nat);
        lemma_splittable_mono(j, s, (d1 - 1) as nat, (d2 - 1) as nat);
        assert(is_split(n, i, j)
            && splittable(i, s, (d2 - 1) as nat)
            && splittable(j, s, (d2 - 1) as nat));
    }
}

/// Both halves of a split of `n` lie strictly below `n`, and a splittable
/// `n` needs no budget beyond `fuel_bound(n)`.
pub proof fn lemma_splittable_fuel_bound(n: u64, s: Seq<u64>, d: nat)
    requires
        splittable(n, s, d),
    ensures
        splittable(n, s, fuel_bound(n)),
    decreases n,
{
    if !s.contains(n) {
        let (i, j) = choose|i: u64, j: u64|
            #[trigger] is_split(n, i, j)
            && splittable(i, s, (d - 1) as nat)
            && splittable(j, s, (d - 1) as nat);
        if i * j == n && 1 < i < j {
            assert(2 * j <= i * j && i * j >= 6) by (nonlinear_arith)
                requires
                    2 <= i && i < j,
            ;
        }
        assert(1 <= i && i < j && j < n && n >= 3);
        lemma_splittable_fuel_bound(i, s, (d - 1) as nat);
        lemma_splittable_fuel_bound(j, s, (d - 1) as nat);
        lemma_splittable_mono(i, s, fuel_bound(i), (fuel_bound(n) - 1) as nat);
        lemma_splittable_mono(j, s, fuel_bound(j), (fuel_bound(n) - 1) as nat);
        assert(is_split(n, i, j)
            && splittable(i, s, (fuel_bound(n) - 1) as nat)
            && splittable(j, s, (fuel_bound(n) - 1) as nat));
    }
}

/// What examining one candidate split `(i, j)` under ceiling `c`
/// establishes: no decomposition of depth `e + 1` with `e + 1 < c` uses
/// it as its top split.
pub open spec fn ruled_out(i: u64, j: u64, s: Seq<u64>, c: u64) -> bool {
    forall|e: nat| e + 2 <= c ==> !(#[trigger] splittable(i, s, e) && splittable(j, s, e))
}

/// All additive candidates `(a, n - a)` with `a` above `lo` have been
/// examined under ceiling `c`.
pub open spec fn add_done(lo: u64, n: u64, s: Seq<u64>, c: u64) -> bool {
    forall|a: u64| lo < a && a < n - a ==> #[trigger] ruled_out(a, (n - a) as u64, s, c)
}

/// Whether the divisor `x` of `n` is a multiplicative candidate: not the
/// trivial divisor, and the smaller half of its pair.
pub open spec fn mul_cand(n: u64, x: u64) -> bool {
    2 <= x && x < n / x
}

/// All multiplicative candidates among the divisors `ds[lo..]` have been
/// examined under ceiling `c`.
pub open spec fn mul_done(lo: int, ds: Seq<u64>, n: u64, s: Seq<u64>, c: u64) -> bool {
    forall|k: int| lo <= k < ds.len() && mul_cand(n, #[trigger] ds[k])
        ==> ruled_out(ds[k], n / ds[k], s, c)
}

/// The running state of one search level: `ceiling` never grows past the
/// entry budget, and the best tree so far is a valid decomposition one
/// above the ceiling.
pub open spec fn best_inv(
    n: u64,
    s: Seq<u64>,
    best: Option<(Node, u64)>,
    ceiling: u64,
    max_depth: u64,
) -> bool {
    &&& ceiling <= max_depth
    &&& (best is None ==> ceiling == max_depth)
    &&& match best {
        Some(p) => {
            &&& eval(p.0) == n as int
            &&& depth(p.0) == p.1 as nat
            &&& leaves_in(p.0, s)
            &&& 1 <= p.1
            &&& p.1 < max_depth
            &&& ceiling == p.1 - 1
            &&& splittable(n, s, p.1 as nat)
        },
        None => true,
    }
}

/// What a candidate rules out under a ceiling, it also rules out under
/// any lower ceiling.
proof fn lemma_ruled_out_weaken(i: u64, j: u64, s: Seq<u64>, c1: u64, c2: u64)
    requires
        ruled_out(i, j, s, c1),
        c2 <= c1,
    ensures
        ruled_out(i, j, s, c2),
{
    assert forall|e: nat| (e + 2 <= c2)
        implies !(#[trigger] splittable(i, s, e) && splittable(j, s, e)) by {
        assert(e + 2 <= c1);
    }
}

/// Examined additive candidates stay examined when the ceiling tightens.
proof fn lemma_add_done_weaken(lo: u64, n: u64, s: Seq<u64>, c1: u64, c2: u64)
    requires
        add_done(lo, n, s, c1),
        c2 <= c1,
    ensures
        add_done(lo, n, s, c2),
{
    assert forall|a: u64| (lo < a && a < n - a)
        implies #[trigger] ruled_out(a, (n - a) as u64, s, c2) by {
        lemma_ruled_out_weaken(a, (n - a) as u64, s, c1, c2);
    }
}

/// Relies on `divisors_fixed::Divisors::divisors` on `u64`: the list of
/// all positive divisors of `n`, in ascending order, and empty for 0.
#[verifier::external_body]
fn divisors_of(n: u64) -> (r: Vec<u64>)
    ensures
        forall|k: int| 0 <= k < r@.len() ==> 1 <= #[trigger] r@[k] <= n && n % r@[k] == 0,
        forall|d: u64| 1 <= d <= n && n % d == 0 ==> r@.contains(d),
        forall|k1: int, k2: int| 0 <= k1 < k2 < r@.len() ==> r@[k1] <= r@[k2],
{
    divisors_fixed::Divisors::divisors(&n)
}

/// Once every candidate split has been examined under the final ceiling
/// `c`, no depth below `c` admits a decomposition of `n` at all.
proof fn lemma_search_complete(n: u64, s: Seq<u64>, ds: Seq<u64>, c: u64)
    requires
        !s.contains(n),
        add_done(0, n, s, c),
        mul_done(0, ds, n, s, c),
        forall|d: u64| 1 <= d <= n && n % d == 0 ==> ds.contains(d),
    ensures
        forall|e: nat| e < c ==> !splittable(n, s, e),
{
    assert forall|e: nat| (e < c) implies !splittable(n, s, e) by {
        if splittable(n, s, e) {
            let (x, y) = choose|x: u64, y: u64|
                #[trigger] is_split(n, x, y)
                && splittable(x, s, (e - 1) as nat)
                && splittable(y, s, (e - 1) as nat);
            let e1 = (e - 1) as nat;
            if x + y == n && 1 <= x < y {
                assert((n - x) as u64 == y);
                assert(ruled_out(x, y, s, c));
                assert(!(splittable(x, s, e1) && splittable(y, s, e1)));
            } else {
                assert(x * y == n && 2 <= x && x < y);
                assert(x <= n && y * (x as int) + 0 == n) by (nonlinear_arith)
                    requires
                        x * y == n && 2 <= x && x < y,
                ;
                lemma_fundamental_div_mod_converse(n as int, x as int, y as int, 0);
                assert(n % x == 0 && n / x == y);
                assert(ds.contains(x));
                let k = choose|k: int| 0 <= k < ds.len() && ds[k] == x;
                assert(mul_cand(n, ds[k]));
                assert(ruled_out(x, y, s, c));
                assert(!(splittable(x, s, e1) && splittable(y, s, e1)));
            }
        }
    }
}

/// One level of the search under the depth budget `max_depth`.
///
/// A member of the extractable slice is its own depth-0 tree and beats
/// everything else. Otherwise every additive split, then every
/// multiplicative split, is tried under a ceiling that tightens to one
/// below the best depth found, and the best tree (if any) is returned.
/// `None` means no decomposition of depth below `max_depth` exists; a
/// returned depth is within one of the least possible.
#[verifier::loop_isolation(false)]
fn split_num_recurse(n: u64, extractable: &[u64], max_depth: u64) -> (r: Option<(Node, u64)>)
    ensures
        extractable@.contains(n) ==> r == Some((Node::Leaf(n), 0u64)),
        match r {
            Some(p) => {
                &&& eval(p.0) == n as int
                &&& depth(p.0) == p.1 as nat
                &&& leaves_in(p.0, extractable@)
                &&& (p.1 == 0 ==> extractable@.contains(n))
                &&& (p.1 == 0 || p.1 < max_depth)
                &&& splittable(n, extractable@, p.1 as nat)
                &&& forall|e: nat| e + 1 < p.1 ==> !splittable(n, extractable@, e)
            },
            None => {
                &&& !extractable@.contains(n)
                &&& forall|e: nat| e < max_depth ==> !splittable(n, extractable@, e)
            },
        },
    decreases max_depth,
{
    if contains_u64(extractable, n) {
        return Some((Node::Leaf(n), 0));
    }

    let ghost s = extractable@;
    let mut ceiling = max_depth;
    let mut best: Option<(Node, u64)> = None;

    if n >= 2 {
        let mut i: u64 = (n - 1) / 2;
        while i >= 1
            invariant
                i <= (n - 1) / 2,
                best_inv(n, s, best, ceiling, max_depth),
                add_done(i, n, s, ceiling),
            decreases i,
        {
            if ceiling == 0 {
                return best;
            }
            let j = n - i;
            let ri = split_num_recurse(i, extractable, ceiling - 1);
            let rj = split_num_recurse(j, extractable, ceiling - 1);
            let ghost old_ceiling = ceiling;
            match (ri, rj) {
                (Some(pi), Some(pj)) => {
                    let (ti, di) = pi;
                    let (tj, dj) = pj;
                    let d = if di >= dj { di } else { dj } + 1;
                    if d < ceiling {
                        ceiling = d - 1;
                        proof {
                            lemma_splittable_mono(i, s, di as nat, (d - 1) as nat);
                            lemma_splittable_mono(j, s, dj as nat, (d - 1) as nat);
                            assert(is_split(n, i, j)
                                && splittable(i, s, (d - 1) as nat)
                                && splittable(j, s, (d - 1) as nat));
                        }
                        best = Some((
                            Node::Operation(Box::new(Operation::new(ti, tj, Op::Plus))),
                            d,
                        ));
                    }
                    proof {
                        assert forall|e: nat| (e + 2 <= ceiling)
                            implies !(#[trigger] splittable(i, s, e) && splittable(j, s, e)) by {
                            if splittable(i, s, e) && splittable(j, s, e) {
                                assert(e + 1 >= di && e + 1 >= dj);
                            }
                        }
                    }
                },
                _ => {
                    proof {
                        assert(ruled_out(i, j, s, ceiling));
                    }
                },
            }
            let ghost prev_i = i;
            i = i - 1;
            proof {
                assert forall|a: u64| (i < a && a < n - a)
                    implies #[trigger] ruled_out(a, (n - a) as u64, s, ceiling) by {
                    if a == prev_i {
                        assert((n - prev_i) as u64 == j);
                        assert(ruled_out(prev_i, j, s, ceiling));
                    } else {
                        assert(ruled_out(a, (n - a) as u64, s, old_ceiling));
                        lemma_ruled_out_weaken(a, (n - a) as u64, s, old_ceiling, ceiling);
                    }
                }
            }
        }
    }

    let divs = divisors_of(n);
    let ghost ds = divs@;
    let mut idx: usize = divs.len();
    while idx > 0
        invariant
            idx <= divs.len(),
            best_inv(n, s, best, ceiling, max_depth),
            add_done(0, n, s, ceiling),
            mul_done(idx as int, ds, n, s, ceiling),
        decreases idx,
    {
        idx = idx - 1;
        let x = divs[idx];
        if x >= 2 && x < n / x {
            if ceiling == 0 {
                return best;
            }
            let j = n / x;
            let ri = split_num_recurse(x, extractable, ceiling - 1);
            let rj = split_num_recurse(j, extractable, ceiling - 1);
            let ghost old_ceiling = ceiling;
            proof {
                assert(n % x == 0);
                lemma_fundamental_div_mod(n as int, x as int);
                assert((x as int) * (j as int) == n);
            }
            match (ri, rj) {
                (Some(pi), Some(pj)) => {
                    let (ti, di) = pi;
                    let (tj, dj) = pj;
                    let d = if di >= dj { di } else { dj } + 1;
                    if d < ceiling {
                        ceiling = d - 1;
                        proof {
                            lemma_splittable_mono(x, s, di as nat, (d - 1) as nat);
                            lemma_splittable_mono(j, s, dj as nat, (d - 1) as nat);
                            assert(is_split(n, x, j)
                                && splittable(x, s, (d - 1) as nat)
                                && splittable(j, s, (d - 1) as nat));
                        }
                        best = Some((
                            Node::Operation(Box::new(Operation::new(ti, tj, Op::Times))),
                            d,
                        ));
                    }
                    proof {
                        assert forall|e: nat| (e + 2 <= ceiling)
                            implies !(#[trigger] splittable(x, s, e) && splittable(j, s, e)) by {
                            if splittable(x, s, e) && splittable(j, s, e) {
                                assert(e + 1 >= di && e + 1 >= dj);
                            }
                        }
                    }
                },
                _ => {
                    proof {
                        assert(ruled_out(x, j, s, ceiling));
                    }
                },
            }
            proof {
                lemma_add_done_weaken(0, n, s, old_ceiling, ceiling);
                assert forall|k: int| (idx <= k < ds.len() && mul_cand(n, #[trigger] ds[k]))
                    implies ruled_out(ds[k], n / ds[k], s, ceiling) by {
                    if k == idx {
                        assert(ds[k] == x && n / ds[k] == j);
                        assert(ruled_out(x, j, s, ceiling));
                    } else {
                        assert(ruled_out(ds[k], n / ds[k], s, old_ceiling));
                        lemma_ruled_out_weaken(ds[k], n / ds[k], s, old_ceiling, ceiling);
                    }
                }
            }
        }
    }

    proof {
        lemma_search_complete(n, s, ds, ceiling);
    }
    best
}

/// Searches for the shallowest expression tree over `+` and `*` whose
/// leaves come from `extractable` and whose value is `n`.
///
/// An extractable `n` is returned at once as the depth-0 leaf. `None` is
/// returned exactly when no decomposition of `n` over the explored splits
/// exists at any depth. A returned tree evaluates to `n`, its recorded
/// depth is its actual depth, its leaves are all extractable, and no
/// decomposition is more than one level shallower: the pruning that keeps
/// the search tractable can hide a solution exactly one level below the
/// returned one, and none deeper than that.
pub fn split_num(n: u64, extractable: &[u64]) -> (r: Option<(Node, u64)>)
    ensures
        extractable@.contains(n) ==> r == Some((Node::Leaf(n), 0u64)),
        match r {
            Some(p) => {
                &&& eval(p.0) == n as int
                &&& depth(p.0) == p.1 as nat
                &&& leaves_in(p.0, extractable@)
                &&& (p.1 == 0 <==> extractable@.contains(n))
                &&& splittable(n, extractable@, p.1 as nat)
                &&& forall|e: nat| e + 1 < p.1 ==> !splittable(n, extractable@, e)
            },
            None => forall|e: nat| !splittable(n, extractable@, e),
        },
{
    let r = split_num_recurse(n, extractable, u64::MAX);
    proof {
        if r is None {
            assert forall|e: nat| !splittable(n, extractable@, e) by {
                if splittable(n, extractable@, e) {
                    lemma_splittable_fuel_bound(n, extractable@, e);
                    assert(fuel_bound(n) < u64::MAX);
                    assert(!splittable(n, extractable@, fuel_bound(n)));
                }
            }
        }
    }
    r
}

} // verus!
