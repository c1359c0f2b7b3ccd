//! Drainage over the mesh graph: sink filling and flux accumulation.
//!
//! Heights are fixed-point integers: [`HEIGHT_SCALE`] units make one unit of
//! height. A filled height may be [`NO_OUTLET`], which stands for a point from
//! which no path drains to the sea.
use vstd::prelude::*;
use crate::mesh::all_below;
use crate::sort::{order_by_key, sorted_by, distinct, indexes};

verus! {

/// Fixed-point units in one unit of height.
pub const HEIGHT_SCALE: i64 = 1_000_000;

/// The least drop from a filled point to its outlet (1e-5 of a unit of height):
/// drainage slopes strictly down.
pub const SINK_EPSILON: i64 = 10;

/// The filled height of a point that cannot drain (positive infinity).
pub const NO_OUTLET: i64 = i64::MAX;

/// Every neighbour list indexes the `n` nodes.
pub open spec fn valid_adjacency(adj: Seq<Vec<usize>>, n: int) -> bool {
    &&& adj.len() == n
    &&& forall|i: int| 0 <= i < n ==> all_below((#[trigger] adj[i])@, n)
}

/// The filled height that sink filling starts from: unbounded above sea level.
pub open spec fn initial_fill(h: Seq<i32>, sea_level: i32, i: int) -> int {
    if h[i] > sea_level {
        NO_OUTLET as int
    } else {
        h[i] as int
    }
}

pub open spec fn max_int(a: int, b: int) -> int {
    if a >= b {
        a
    } else {
        b
    }
}

/// `s` is an admissible fill of `h`: never below the terrain, never above the
/// start, and each point above its terrain lies at most `SINK_EPSILON` above
/// every neighbour (it is a lake surface or a slope that drains).
pub open spec fn admissible_fill(h: Seq<i32>, adj: Seq<Vec<usize>>, sea_level: i32, s: Seq<int>) -> bool {
    &&& s.len() == h.len()
    &&& forall|i: int| 0 <= i < h.len() ==> h[i] <= #[trigger] s[i] <= initial_fill(h, sea_level, i)
    &&& forall|i: int, j: int|
        0 <= i < h.len() && 0 <= j < adj[i]@.len() ==> s[i] <= max_int(
            h[i] as int,
            s[#[trigger] adj[i]@[j] as int] + SINK_EPSILON,
        )
}

/// `s` lies nowhere above `r`.
pub open spec fn below_everywhere(s: Seq<int>, r: Seq<i64>) -> bool {
    forall|k: int| 0 <= k < s.len() ==> #[trigger] s[k] <= r[k] as int
}

pub open spec fn widen(r: Seq<i64>) -> Seq<int> {
    r.map_values(|v: i64| v as int)
}

/// Each finite filled point above sea level has a neighbour whose filled height
/// lies at least `SINK_EPSILON` lower: following those neighbours runs strictly
/// down to the sea.
pub open spec fn drains(h: Seq<i32>, adj: Seq<Vec<usize>>, sea_level: i32, r: Seq<i64>) -> bool {
    forall|i: int|
        0 <= i < h.len() && #[trigger] r[i] < NO_OUTLET && h[i] > sea_level ==> exists|j: int|
            0 <= j < adj[i]@.len() && r[#[trigger] adj[i]@[j] as int] + SINK_EPSILON <= r[i]
}

/// `r` is the filled terrain of `h`: the greatest admissible fill, which drains.
pub open spec fn is_filled(h: Seq<i32>, adj: Seq<Vec<usize>>, sea_level: i32, r: Seq<i64>) -> bool {
    &&& r.len() == h.len()
    &&& admissible_fill(h, adj, sea_level, widen(r))
    &&& forall|s: Seq<int>| #[trigger] admissible_fill(h, adj, sea_level, s) ==> below_everywhere(s, r)
    &&& drains(h, adj, sea_level, r)
}

/// Sum of `f[k] - h[k]` over `k < m`.
pub open spec fn slack(f: Seq<i64>, h: Seq<i32>, m: int) -> int
    decreases m,
{
    if m <= 0 {
        0
    } else {
        slack(f, h, m - 1) + (f[m - 1] - h[m - 1])
    }
}

proof fn lemma_slack_update(f: Seq<i64>, h: Seq<i32>, m: int, i: int, v: i64)
    requires
        0 <= i < f.len(),
        m <= f.len(),
    ensures
        slack(f.update(i, v), h, m) == slack(f, h, m) + (if i < m { v - f[i] } else { 0 }),
    decreases m,
{
    if m > 0 {
        lemma_slack_update(f, h, m - 1, i, v);
    }
}

proof fn lemma_slack_nonneg(f: Seq<i64>, h: Seq<i32>, m: int)
    requires
        m <= f.len(),
        m <= h.len(),
        forall|k: int| 0 <= k < m ==> h[k] <= #[trigger] f[k],
    ensures
        slack(f, h, m) >= 0,
    decreases m,
{
    if m > 0 {
        lemma_slack_nonneg(f, h, m - 1);
    }
}

/// What holds of the filled heights throughout sink filling.
pub open spec fn fill_state(h: Seq<i32>, adj: Seq<Vec<usize>>, sea_level: i32, f: Seq<i64>) -> bool {
    &&& f.len() == h.len()
    &&& valid_adjacency(adj, h.len() as int)
    &&& forall|i: int| 0 <= i < h.len() ==> h[i] <= #[trigger] f[i] <= initial_fill(h, sea_level, i)
    &&& forall|s: Seq<int>| #[trigger] admissible_fill(h, adj, sea_level, s) ==> below_everywhere(s, f)
    &&& drains(h, adj, sea_level, f)
}

/// Point `i` lies at most `SINK_EPSILON` above each neighbour, or on its terrain.
pub open spec fn settled(h: Seq<i32>, adj: Seq<Vec<usize>>, f: Seq<i64>, i: int) -> bool {
    forall|j: int|
        0 <= j < adj[i]@.len() ==> f[i] <= max_int(
            h[i] as int,
            f[#[trigger] adj[i]@[j] as int] + SINK_EPSILON,
        )
}

/// Lowering point `i` to `v`, which no admissible fill exceeds and from which
/// neighbour `nb` drains, keeps the state.
proof fn lemma_lower_point(
    h: Seq<i32>,
    adj: Seq<Vec<usize>>,
    sea_level: i32,
    f: Seq<i64>,
    i: int,
    j: int,
    v: i64,
)
    requires
        fill_state(h, adj, sea_level, f),
        0 <= i < h.len(),
        0 <= j < adj[i]@.len(),
        h[i] <= v < f[i],
        f[adj[i]@[j] as int] + SINK_EPSILON <= v,
        v == h[i] || v == f[adj[i]@[j] as int] + SINK_EPSILON,
    ensures
        fill_state(h, adj, sea_level, f.update(i, v)),
        slack(f.update(i, v), h, h.len() as int) < slack(f, h, h.len() as int),
{
    let g = f.update(i, v);
    let nb = adj[i]@[j] as int;
    lemma_slack_update(f, h, h.len() as int, i, v);
    assert forall|s: Seq<int>| #[trigger] admissible_fill(h, adj, sea_level, s) implies below_everywhere(s, g) by {
        assert(below_everywhere(s, f));
        assert(s[nb] <= f[nb]);
        assert(s[i] <= max_int(h[i] as int, s[adj[i]@[j] as int] + SINK_EPSILON));
        assert forall|k: int| 0 <= k < s.len() implies #[trigger] s[k] <= g[k] as int by {
            if k != i {
                assert(s[k] <= f[k]);
            }
        }
    }
    assert forall|k: int|
        0 <= k < h.len() && #[trigger] g[k] < NO_OUTLET && h[k] > sea_level implies exists|j2: int|
            0 <= j2 < adj[k]@.len() && g[#[trigger] adj[k]@[j2] as int] + SINK_EPSILON <= g[k] by {
        if k == i {
            assert(g[adj[i]@[j] as int] <= f[adj[i]@[j] as int]);
        } else {
            assert(f[k] < NO_OUTLET);
            let j2 = choose|j2: int|
                0 <= j2 < adj[k]@.len() && f[#[trigger] adj[k]@[j2] as int] + SINK_EPSILON <= f[k];
            assert(g[adj[k]@[j2] as int] <= f[adj[k]@[j2] as int]);
        }
    }
}

/// Relaxes point `i` against each of its neighbours in turn; says whether its
/// filled height changed.
fn relax_point(
    filled: &mut Vec<i64>,
    heights: &Vec<i32>,
    adjacent: &Vec<Vec<usize>>,
    sea_level: i32,
    i: usize,
) -> (moved: bool)
    requires
        fill_state(heights@, adjacent@, sea_level, old(filled)@),
        i < heights@.len(),
    ensures
        fill_state(heights@, adjacent@, sea_level, final(filled)@),
        moved ==> slack(final(filled)@, heights@, heights@.len() as int) < slack(
            old(filled)@,
            heights@,
            heights@.len() as int,
        ),
        !moved ==> final(filled)@ == old(filled)@ && settled(heights@, adjacent@, final(filled)@, i as int),
{
    let height = heights[i] as i64;
    if filled[i] == height {
        return false;
    }
    let ghost f0 = filled@;
    let ghost n = heights@.len() as int;
    let row = &adjacent[i];
    let mut changed = false;
    let mut j: usize = 0;
    while j < row.len()
        invariant
            0 <= j <= row@.len(),
            i < n == heights@.len(),
            row@ == adjacent@[i as int]@,
            height == heights@[i as int],
            filled@[i as int] != height,
            fill_state(heights@, adjacent@, sea_level, filled@),
            changed ==> slack(filled@, heights@, n) < slack(f0, heights@, n),
            !changed ==> filled@ == f0,
            f0 == old(filled)@,
            !changed ==> forall|k: int|
                0 <= k < j ==> filled@[i as int] <= max_int(
                    heights@[i as int] as int,
                    filled@[#[trigger] row@[k] as int] + SINK_EPSILON,
                ),
        decreases row.len() - j,
    {
        let nb = row[j];
        let f_nb = filled[nb];
        if f_nb < NO_OUTLET - SINK_EPSILON {
            proof {
                assert(all_below(adjacent@[i as int]@, n));
                assert(row@[j as int] < n);
            }
            let other = f_nb + SINK_EPSILON;
            if height >= other {
                let ghost before = filled@;
                proof {
                    lemma_lower_point(heights@, adjacent@, sea_level, filled@, i as int, j as int, height);
                }
                filled.set(i, height);
                assert(filled@ == before.update(i as int, height));
                assert(slack(filled@, heights@, n) < slack(f0, heights@, n));
                return true;
            }
            if filled[i] > other && other > height {
                proof {
                    lemma_lower_point(heights@, adjacent@, sea_level, filled@, i as int, j as int, other);
                }
                filled.set(i, other);
                changed = true;
            }
        }
        j = j + 1;
    }
    changed
}

/// Fills the sinks of the terrain `heights` over the mesh graph `adjacent`, so that
/// every point above `sea_level` drains to the sea along a slope of at least
/// `SINK_EPSILON` per step. Points are relaxed in ascending order of height until
/// nothing changes; the result is the greatest admissible fill. A point that no
/// path drains keeps `NO_OUTLET`.
pub fn fill_sinks(heights: &Vec<i32>, adjacent: &Vec<Vec<usize>>, sea_level: i32) -> (r: Vec<i64>)
    requires
        valid_adjacency(adjacent@, heights@.len() as int),
    ensures
        is_filled(heights@, adjacent@, sea_level, r@),
{
    let n = heights.len();
    let mut filled: Vec<i64> = Vec::new();
    let mut keys: Vec<i64> = Vec::new();
    let mut k: usize = 0;
    while k < n
        invariant
            k <= n == heights@.len(),
            filled@.len() == k,
            keys@.len() == k,
            forall|j: int| 0 <= j < k ==> #[trigger] filled@[j] == initial_fill(heights@, sea_level, j),
        decreases n - k,
    {
        let h = heights[k];
        if h > sea_level {
            filled.push(NO_OUTLET);
        } else {
            filled.push(h as i64);
        }
        keys.push(h as i64);
        k = k + 1;
    }
    proof {
        assert forall|s: Seq<int>| #[trigger] admissible_fill(heights@, adjacent@, sea_level, s) implies below_everywhere(s, filled@) by {
            assert forall|j: int| 0 <= j < s.len() implies #[trigger] s[j] <= filled@[j] as int by {
                assert(s[j] <= initial_fill(heights@, sea_level, j));
            }
        }
    }
    let order = order_by_key(&keys);
    let mut changed = true;
    proof {
        lemma_slack_nonneg(filled@, heights@, n as int);
    }
    while changed
        invariant
            n == heights@.len(),
            order@.len() == n,
            indexes(order@, n as int),
            forall|x: usize| x < n ==> order@.contains(x),
            fill_state(heights@, adjacent@, sea_level, filled@),
            slack(filled@, heights@, n as int) >= 0,
            !changed ==> forall|i: int| 0 <= i < n ==> settled(heights@, adjacent@, filled@, i),
        decreases slack(filled@, heights@, n as int) + (if changed { 1int } else { 0int }),
    {
        changed = false;
        let ghost start = filled@;
        let mut p: usize = 0;
        while p < n
            invariant
                p <= n == heights@.len(),
                order@.len() == n,
                indexes(order@, n as int),
                fill_state(heights@, adjacent@, sea_level, filled@),
                slack(filled@, heights@, n as int) <= slack(start, heights@, n as int),
                changed ==> slack(filled@, heights@, n as int) < slack(start, heights@, n as int),
                !changed ==> filled@ == start,
                !changed ==> forall|q: int| 0 <= q < p ==> settled(heights@, adjacent@, filled@, #[trigger] order@[q] as int),
            decreases n - p,
        {
            let moved = relax_point(&mut filled, heights, adjacent, sea_level, order[p]);
            if moved {
                changed = true;
            }
            p = p + 1;
        }
        proof {
            lemma_slack_nonneg(filled@, heights@, n as int);
            if !changed {
                assert forall|i: int| 0 <= i < n implies settled(heights@, adjacent@, filled@, i) by {
                    assert(order@.contains(i as usize));
                    let q = choose|q: int| 0 <= q < order@.len() && order@[q] == i as usize;
                    assert(settled(heights@, adjacent@, filled@, order@[q] as int));
                }
            }
        }
    }
    proof {
        let w = widen(filled@);
        assert forall|i: int, j: int|
            0 <= i < heights@.len() && 0 <= j < adjacent@[i]@.len() implies w[i] <= max_int(
                heights@[i] as int,
                w[#[trigger] adjacent@[i]@[j] as int] + SINK_EPSILON,
            ) by {
            assert(settled(heights@, adjacent@, filled@, i));
            assert(all_below(adjacent@[i]@, n as int));
            assert(adjacent@[i]@[j] < n);
        }
        assert(admissible_fill(heights@, adjacent@, sea_level, w));
    }
    filled
}

/// Heights `h2` are the filled heights `r`, each of which is a finite height.
pub open spec fn refilled_from(h2: Seq<i32>, r: Seq<i64>) -> bool {
    &&& h2.len() == r.len()
    &&& forall|i: int| 0 <= i < r.len() ==> #[trigger] h2[i] as int == r[i] as int
}

proof fn lemma_refill_below(
    h: Seq<i32>,
    adj: Seq<Vec<usize>>,
    sea_level: i32,
    r: Seq<i64>,
    h2: Seq<i32>,
    r2: Seq<i64>,
    i: int,
)
    requires
        valid_adjacency(adj, h.len() as int),
        is_filled(h, adj, sea_level, r),
        refilled_from(h2, r),
        is_filled(h2, adj, sea_level, r2),
        0 <= i < h.len(),
    ensures
        r2[i] <= r[i],
    decreases r[i] - i32::MIN,
{
    assert(h2[i] as int == r[i] as int);
    let w2 = widen(r2);
    assert(w2[i] <= initial_fill(h2, sea_level, i));
    if h2[i] > sea_level {
        let w = widen(r);
        assert(w[i] <= initial_fill(h, sea_level, i));
        assert(h[i] > sea_level);
        assert(r[i] < NO_OUTLET);
        let j = choose|j: int|
            0 <= j < adj[i]@.len() && r[#[trigger] adj[i]@[j] as int] + SINK_EPSILON <= r[i];
        let nb = adj[i]@[j] as int;
        assert(all_below(adj[i]@, h.len() as int));
        assert(0 <= nb < h.len());
        assert(h2[nb] as int == r[nb] as int);
        lemma_refill_below(h, adj, sea_level, r, h2, r2, nb);
        assert(w2[i] <= max_int(h2[i] as int, w2[adj[i]@[j] as int] + SINK_EPSILON));
    }
}

/// Sink filling is idempotent: filling terrain that is already filled, where
/// every filled height is again a height, gives it back unchanged.
pub proof fn lemma_fill_idempotent(
    h: Seq<i32>,
    adj: Seq<Vec<usize>>,
    sea_level: i32,
    r: Seq<i64>,
    h2: Seq<i32>,
    r2: Seq<i64>,
)
    requires
        valid_adjacency(adj, h.len() as int),
        is_filled(h, adj, sea_level, r),
        refilled_from(h2, r),
        is_filled(h2, adj, sea_level, r2),
    ensures
        r2 == r,
{
    let w = widen(r);
    assert forall|i: int| 0 <= i < h2.len() implies h2[i] <= #[trigger] w[i] <= initial_fill(h2, sea_level, i) by {
        assert(h2[i] as int == r[i] as int);
    }
    assert forall|i: int, j: int|
        0 <= i < h2.len() && 0 <= j < adj[i]@.len() implies w[i] <= max_int(
            h2[i] as int,
            w[#[trigger] adj[i]@[j] as int] + SINK_EPSILON,
        ) by {
        assert(h2[i] as int == r[i] as int);
    }
    assert(admissible_fill(h2, adj, sea_level, w));
    assert(below_everywhere(w, r2));
    assert forall|i: int| 0 <= i < r.len() implies r2[i] == r[i] by {
        assert(w[i] <= r2[i] as int);
        lemma_refill_below(h, adj, sea_level, r, h2, r2, i);
    }
    assert(r2 =~= r);
}

/// `path` runs over the mesh graph from its first point down to a point at or
/// below sea level, each step to a neighbour whose filled height is lower by at
/// least `SINK_EPSILON`.
pub open spec fn drainage_path(
    h: Seq<i32>,
    adj: Seq<Vec<usize>>,
    sea_level: i32,
    r: Seq<i64>,
    path: Seq<int>,
) -> bool {
    &&& path.len() >= 1
    &&& forall|k: int| 0 <= k < path.len() ==> 0 <= #[trigger] path[k] < h.len()
    &&& forall|k: int|
        0 <= k < path.len() - 1 ==> adj[path[k]]@.contains(#[trigger] path[k + 1] as usize) && r[path[k
            + 1]] + SINK_EPSILON <= r[path[k]]
    &&& h[path.last()] <= sea_level
}

/// `path` runs over the mesh graph, neighbour to neighbour, to a point at or below
/// sea level.
pub open spec fn path_to_sea(h: Seq<i32>, adj: Seq<Vec<usize>>, sea_level: i32, path: Seq<int>) -> bool {
    &&& path.len() >= 1
    &&& forall|k: int| 0 <= k < path.len() ==> 0 <= #[trigger] path[k] < h.len()
    &&& forall|k: int| 0 <= k < path.len() - 1 ==> adj[path[k]]@.contains(#[trigger] path[k + 1] as usize)
    &&& h[path.last()] <= sea_level
}

proof fn lemma_fill_bound_on_path(
    h: Seq<i32>,
    adj: Seq<Vec<usize>>,
    sea_level: i32,
    r: Seq<i64>,
    path: Seq<int>,
)
    requires
        h.len() <= usize::MAX,
        valid_adjacency(adj, h.len() as int),
        is_filled(h, adj, sea_level, r),
        path_to_sea(h, adj, sea_level, path),
    ensures
        r[path[0]] <= i32::MAX + (path.len() - 1) * SINK_EPSILON,
    decreases path.len(),
{
    let w = widen(r);
    let p0 = path[0];
    assert(0 <= p0 < h.len());
    assert(w[p0] <= initial_fill(h, sea_level, p0));
    if path.len() == 1 {
        assert(path.last() == p0);
        assert((path.len() - 1) * SINK_EPSILON == 0);
    } else {
        let rest = path.subrange(1, path.len() as int);
        assert forall|k: int| 0 <= k < rest.len() implies 0 <= #[trigger] rest[k] < h.len() by {
            assert(rest[k] == path[k + 1]);
        }
        assert forall|k: int| 0 <= k < rest.len() - 1 implies adj[rest[k]]@.contains(#[trigger] rest[k + 1] as usize) by {
            let k1 = k + 1;
            assert(rest[k] == path[k1]);
            assert(rest[k + 1] == path[k1 + 1]);
        }
        assert(rest.last() == path.last());
        lemma_fill_bound_on_path(h, adj, sea_level, r, rest);
        let p1 = path[1];
        assert(rest[0] == p1);
        assert(adj[p0]@.contains(p1 as usize));
        let j = choose|j: int| 0 <= j < adj[p0]@.len() && adj[p0]@[j] == p1 as usize;
        assert(w[p0] <= max_int(h[p0] as int, w[adj[p0]@[j] as int] + SINK_EPSILON));
        assert(adj[p0]@[j] as int == p1);
        assert((rest.len() - 1) * SINK_EPSILON + SINK_EPSILON == (path.len() - 1) * SINK_EPSILON) by (nonlinear_arith)
            requires rest.len() == path.len() - 1;
    }
}

/// A point joined to the sea by a path through the mesh graph drains: its filled
/// height is finite. (The path must be short enough for its slope to fit the
/// filled heights' integer range.)
pub proof fn lemma_connected_point_drains(
    h: Seq<i32>,
    adj: Seq<Vec<usize>>,
    sea_level: i32,
    r: Seq<i64>,
    path: Seq<int>,
)
    requires
        h.len() <= usize::MAX,
        valid_adjacency(adj, h.len() as int),
        is_filled(h, adj, sea_level, r),
        path_to_sea(h, adj, sea_level, path),
        path.len() * SINK_EPSILON <= i64::MAX - i32::MAX,
    ensures
        r[path[0]] < NO_OUTLET,
{
    lemma_fill_bound_on_path(h, adj, sea_level, r, path);
}

/// Sink filling never lowers a point, and from every point that it leaves
/// finite a path runs down the filled terrain to the sea.
pub proof fn lemma_fill_drains_to_sea(
    h: Seq<i32>,
    adj: Seq<Vec<usize>>,
    sea_level: i32,
    r: Seq<i64>,
    i: int,
) -> (path: Seq<int>)
    requires
        valid_adjacency(adj, h.len() as int),
        is_filled(h, adj, sea_level, r),
        0 <= i < h.len(),
        r[i] < NO_OUTLET,
    ensures
        h[i] <= r[i],
        path[0] == i,
        drainage_path(h, adj, sea_level, r, path),
    decreases r[i] - i32::MIN,
{
    let w = widen(r);
    assert(h[i] <= w[i] <= initial_fill(h, sea_level, i));
    if h[i] <= sea_level {
        seq![i]
    } else {
        let j = choose|j: int|
            0 <= j < adj[i]@.len() && r[#[trigger] adj[i]@[j] as int] + SINK_EPSILON <= r[i];
        let nb = adj[i]@[j] as int;
        assert(all_below(adj[i]@, h.len() as int));
        assert(w[nb] >= h[nb]);
        let rest = lemma_fill_drains_to_sea(h, adj, sea_level, r, nb);
        let path = seq![i] + rest;
        assert(adj[i]@.contains(nb as usize));
        assert forall|k: int| 0 <= k < path.len() - 1 implies adj[path[k]]@.contains(
            #[trigger] path[k + 1] as usize,
        ) && r[path[k + 1]] + SINK_EPSILON <= r[path[k]] by {
            if k > 0 {
                let k1 = k - 1;
                assert(path[k] == rest[k1]);
                assert(path[k + 1] == rest[k1 + 1]);
                assert(adj[rest[k1]]@.contains(rest[k1 + 1] as usize));
            } else {
                assert(path[1] == rest[0]);
            }
        }
        assert(path.last() == rest.last());
        path
    }
}

/// Among the first `m` entries of `row`, the neighbour lower than `hk` with the
/// lowest height; the first such one on ties.
pub open spec fn lowest_below(h: Seq<i64>, row: Seq<usize>, hk: i64, m: int) -> Option<usize>
    decreases m,
{
    if m <= 0 {
        None
    } else {
        let prev = lowest_below(h, row, hk, m - 1);
        let nb = row[m - 1];
        if h[nb as int] < hk {
            match prev {
                None => Some(nb),
                Some(low) => if h[nb as int] < h[low as int] {
                    Some(nb)
                } else {
                    Some(low)
                },
            }
        } else {
            prev
        }
    }
}

/// Where point `k` sends its water: its lowest strictly lower neighbour.
pub open spec fn downhill(h: Seq<i64>, adj: Seq<Vec<usize>>, k: int) -> Option<usize> {
    lowest_below(h, adj[k]@, h[k], adj[k]@.len() as int)
}

/// The water that reaches `v` from the points `u < m` marked in `from`: each
/// sends its own flux and one unit of rain.
pub open spec fn inflow(
    flux: Seq<usize>,
    from: Seq<bool>,
    h: Seq<i64>,
    adj: Seq<Vec<usize>>,
    v: int,
    m: int,
) -> int
    decreases m,
{
    if m <= 0 {
        0
    } else {
        inflow(flux, from, h, adj, v, m - 1) + if from[m - 1] && downhill(h, adj, m - 1) == Some(
            v as usize,
        ) {
            flux[m - 1] + 1
        } else {
            0
        }
    }
}

/// `flux` balances: every point carries exactly what its upstream neighbours send it.
pub open spec fn is_flux(h: Seq<i64>, adj: Seq<Vec<usize>>, flux: Seq<usize>) -> bool {
    &&& flux.len() == h.len()
    &&& forall|v: int|
        0 <= v < h.len() ==> #[trigger] flux[v] == inflow(
            flux,
            Seq::new(h.len(), |u: int| true),
            h,
            adj,
            v,
            h.len() as int,
        )
}

/// The flux held by the points `u < m` not marked in `done`.
pub open spec fn open_flux(flux: Seq<usize>, done: Seq<bool>, m: int) -> int
    decreases m,
{
    if m <= 0 {
        0
    } else {
        open_flux(flux, done, m - 1) + if done[m - 1] {
            0
        } else {
            flux[m - 1] as int
        }
    }
}

proof fn lemma_lowest_below(h: Seq<i64>, row: Seq<usize>, hk: i64, m: int)
    requires
        0 <= m <= row.len(),
    ensures
        lowest_below(h, row, hk, m) matches Some(low) ==> h[low as int] < hk && row.subrange(
            0,
            m,
        ).contains(low),
    decreases m,
{
    if m > 0 {
        lemma_lowest_below(h, row, hk, m - 1);
        let prev = lowest_below(h, row, hk, m - 1);
        if let Some(low) = prev {
            if row.subrange(0, m - 1).contains(low) {
                let k = choose|k: int| 0 <= k < m - 1 && #[trigger] row.subrange(0, m - 1)[k] == low;
                assert(row.subrange(0, m)[k] == low);
            }
        }
        assert(row.subrange(0, m)[m - 1] == row[m - 1]);
    }
}

proof fn lemma_inflow_update_open(
    flux: Seq<usize>,
    from: Seq<bool>,
    h: Seq<i64>,
    adj: Seq<Vec<usize>>,
    v: int,
    m: int,
    x: int,
    val: usize,
)
    requires
        0 <= x < flux.len(),
        m <= flux.len(),
        !from[x],
    ensures
        inflow(flux.update(x, val), from, h, adj, v, m) == inflow(flux, from, h, adj, v, m),
    decreases m,
{
    if m > 0 {
        lemma_inflow_update_open(flux, from, h, adj, v, m - 1, x, val);
    }
}

proof fn lemma_inflow_mark(
    flux: Seq<usize>,
    from: Seq<bool>,
    h: Seq<i64>,
    adj: Seq<Vec<usize>>,
    v: int,
    m: int,
    k: int,
)
    requires
        0 <= k < from.len(),
        m <= from.len(),
        !from[k],
    ensures
        inflow(flux, from.update(k, true), h, adj, v, m) == inflow(flux, from, h, adj, v, m) + if k
            < m && downhill(h, adj, k) == Some(v as usize) {
            flux[k] + 1
        } else {
            0
        },
    decreases m,
{
    if m > 0 {
        lemma_inflow_mark(flux, from, h, adj, v, m - 1, k);
    }
}

proof fn lemma_open_update(flux: Seq<usize>, done: Seq<bool>, m: int, x: int, val: usize)
    requires
        0 <= x < flux.len(),
        m <= flux.len(),
        !done[x],
    ensures
        open_flux(flux.update(x, val), done, m) == open_flux(flux, done, m) + if x < m {
            val - flux[x]
        } else {
            0
        },
    decreases m,
{
    if m > 0 {
        lemma_open_update(flux, done, m - 1, x, val);
    }
}

proof fn lemma_open_mark(flux: Seq<usize>, done: Seq<bool>, m: int, k: int)
    requires
        0 <= k < done.len(),
        m <= done.len(),
        !done[k],
    ensures
        open_flux(flux, done.update(k, true), m) == open_flux(flux, done, m) - if k < m {
            flux[k] as int
        } else {
            0
        },
    decreases m,
{
    if m > 0 {
        lemma_open_mark(flux, done, m - 1, k);
    }
}

/// An open point's flux, or two of them together, is at most the open flux.
proof fn lemma_open_bound(flux: Seq<usize>, done: Seq<bool>, m: int, x: int, y: int)
    requires
        0 <= x < m,
        0 <= y < m,
        !done[x],
        !done[y],
    ensures
        flux[x] <= open_flux(flux, done, m),
        x != y ==> flux[x] + flux[y] <= open_flux(flux, done, m),
    decreases m,
{
    lemma_open_nonneg(flux, done, m - 1);
    if x < m - 1 && y < m - 1 {
        lemma_open_bound(flux, done, m - 1, x, y);
    } else if x < m - 1 {
        lemma_open_bound(flux, done, m - 1, x, x);
    } else if y < m - 1 {
        lemma_open_bound(flux, done, m - 1, y, y);
    }
}

proof fn lemma_open_nonneg(flux: Seq<usize>, done: Seq<bool>, m: int)
    ensures
        open_flux(flux, done, m) >= 0,
    decreases m,
{
    if m > 0 {
        lemma_open_nonneg(flux, done, m - 1);
    }
}

proof fn lemma_inflow_none(flux: Seq<usize>, from: Seq<bool>, h: Seq<i64>, adj: Seq<Vec<usize>>, v: int, m: int)
    requires
        m <= from.len(),
        forall|u: int| 0 <= u < m ==> !#[trigger] from[u],
    ensures
        inflow(flux, from, h, adj, v, m) == 0,
    decreases m,
{
    if m > 0 {
        lemma_inflow_none(flux, from, h, adj, v, m - 1);
    }
}

proof fn lemma_open_zero(flux: Seq<usize>, done: Seq<bool>, m: int)
    requires
        m <= flux.len(),
        forall|u: int| 0 <= u < m ==> #[trigger] flux[u] == 0,
    ensures
        open_flux(flux, done, m) == 0,
    decreases m,
{
    if m > 0 {
        lemma_open_zero(flux, done, m - 1);
    }
}

/// The lowest strictly lower neighbour of point `k`, if any.
fn find_downhill(heights: &Vec<i64>, adjacent: &Vec<Vec<usize>>, k: usize) -> (r: Option<usize>)
    requires
        valid_adjacency(adjacent@, heights@.len() as int),
        k < heights@.len(),
    ensures
        r == downhill(heights@, adjacent@, k as int),
        r matches Some(nb) ==> nb < heights@.len() && heights@[nb as int] < heights@[k as int],
{
    let hk = heights[k];
    let row = &adjacent[k];
    let mut lowest: Option<usize> = None;
    let mut j: usize = 0;
    proof {
        assert(all_below(adjacent@[k as int]@, heights@.len() as int));
    }
    while j < row.len()
        invariant
            j <= row@.len(),
            row@ == adjacent@[k as int]@,
            all_below(row@, heights@.len() as int),
            hk == heights@[k as int],
            lowest == lowest_below(heights@, row@, hk, j as int),
        decreases row.len() - j,
    {
        let nb = row[j];
        if heights[nb] < hk {
            lowest = match lowest {
                None => Some(nb),
                Some(low) => {
                    proof {
                        lemma_lowest_below(heights@, row@, hk, j as int);
                        let q = choose|q: int| 0 <= q < j && #[trigger] row@.subrange(0, j as int)[q] == low;
                        assert(row@[q] == low);
                    }
                    if heights[nb] < heights[low] {
                        Some(nb)
                    } else {
                        Some(low)
                    }
                },
            };
        }
        j = j + 1;
    }
    proof {
        lemma_lowest_below(heights@, row@, hk, j as int);
        if let Some(low) = lowest {
            let q = choose|q: int| 0 <= q < j && #[trigger] row@.subrange(0, j as int)[q] == low;
            assert(row@[q] == low);
        }
    }
    lowest
}

/// Accumulates flux: points are visited from the highest down, and each sends its
/// own flux plus one unit of rain to its lowest strictly lower neighbour (the
/// first such one on ties). A point without a lower neighbour is a sink.
pub fn get_flux(heights: &Vec<i64>, adjacent: &Vec<Vec<usize>>) -> (r: Vec<usize>)
    requires
        valid_adjacency(adjacent@, heights@.len() as int),
    ensures
        is_flux(heights@, adjacent@, r@),
{
    let n = heights.len();
    let mut flux: Vec<usize> = vec![0; n];
    let order = order_by_key(heights);
    let ghost mut done: Seq<bool> = Seq::new(n as nat, |u: int| false);
    proof {
        assert forall|v: int| 0 <= v < n implies #[trigger] flux@[v] == inflow(flux@, done, heights@, adjacent@, v, n as int) by {
            lemma_inflow_none(flux@, done, heights@, adjacent@, v, n as int);
        }
        lemma_open_zero(flux@, done, n as int);
    }
    let mut pos: usize = n;
    while pos > 0
        invariant
            pos <= n == heights@.len(),
            valid_adjacency(adjacent@, n as int),
            flux@.len() == n,
            done.len() == n,
            order@.len() == n,
            sorted_by(order@, heights@),
            distinct(order@),
            indexes(order@, n as int),
            forall|x: usize| x < n ==> order@.contains(x),
            forall|q: int| 0 <= q < pos ==> !done[#[trigger] order@[q] as int],
            forall|q: int| pos <= q < n ==> done[#[trigger] order@[q] as int],
            forall|u: int, q: int|
                0 <= u < n && #[trigger] done[u] && 0 <= q < pos ==> heights@[u] >= heights@[#[trigger] order@[q] as int],
            forall|v: int| 0 <= v < n ==> #[trigger] flux@[v] == inflow(flux@, done, heights@, adjacent@, v, n as int),
            open_flux(flux@, done, n as int) <= n - pos,
        decreases pos,
    {
        pos = pos - 1;
        let k = order[pos];
        let lowest = find_downhill(heights, adjacent, k);
        let ghost f0 = flux@;
        let ghost d0 = done;
        proof {
            assert(!done[k as int]);
        }
        match lowest {
            Some(nb) => {
                proof {
                    if done[nb as int] {
                        assert(heights@[nb as int] >= heights@[order@[pos as int] as int]);
                    }
                    lemma_open_bound(flux@, done, n as int, nb as int, k as int);
                }
                let sent = flux[nb] + flux[k] + 1;
                flux.set(nb, sent);
                proof {
                    lemma_open_update(f0, d0, n as int, nb as int, sent);
                    lemma_open_mark(flux@, d0, n as int, k as int);
                    assert forall|v: int| 0 <= v < n implies #[trigger] flux@[v] == inflow(flux@, d0.update(k as int, true), heights@, adjacent@, v, n as int) by {
                        lemma_inflow_update_open(f0, d0, heights@, adjacent@, v, n as int, nb as int, sent);
                        lemma_inflow_mark(flux@, d0, heights@, adjacent@, v, n as int, k as int);
                        assert(f0[v] == inflow(f0, d0, heights@, adjacent@, v, n as int));
                    }
                }
            },
            None => {
                proof {
                    lemma_open_mark(flux@, d0, n as int, k as int);
                    assert forall|v: int| 0 <= v < n implies #[trigger] flux@[v] == inflow(flux@, d0.update(k as int, true), heights@, adjacent@, v, n as int) by {
                        lemma_inflow_mark(flux@, d0, heights@, adjacent@, v, n as int, k as int);
                    }
                }
            },
        }
        proof {
            done = done.update(k as int, true);
            assert forall|q: int| 0 <= q < pos implies !done[#[trigger] order@[q] as int] by {
                assert(order@[q] != order@[pos as int]);
            }
            assert forall|u: int, q: int|
                0 <= u < n && #[trigger] done[u] && 0 <= q < pos implies heights@[u] >= heights@[#[trigger] order@[q] as int] by {
                if u == k {
                    assert(heights@[order@[q] as int] <= heights@[order@[pos as int] as int]);
                } else {
                    assert(d0[u]);
                }
            }
        }
    }
    proof {
        assert(done =~= Seq::new(n as nat, |u: int| true)) by {
            assert forall|u: int| 0 <= u < n implies done[u] by {
                assert(order@.contains(u as usize));
                let q = choose|q: int| 0 <= q < n && order@[q] == u as usize;
                assert(done[order@[q] as int]);
            }
        }
    }
    flux
}

proof fn lemma_flux_equal_at(h: Seq<i64>, adj: Seq<Vec<usize>>, f1: Seq<usize>, f2: Seq<usize>, v: int)
    requires
        h.len() <= usize::MAX,
        is_flux(h, adj, f1),
        is_flux(h, adj, f2),
        0 <= v < h.len(),
    ensures
        f1[v] == f2[v],
    decreases i64::MAX - h[v], h.len() + 1,
{
    lemma_inflow_equal(h, adj, f1, f2, v, h.len() as int);
}

proof fn lemma_inflow_equal(h: Seq<i64>, adj: Seq<Vec<usize>>, f1: Seq<usize>, f2: Seq<usize>, v: int, m: int)
    requires
        h.len() <= usize::MAX,
        is_flux(h, adj, f1),
        is_flux(h, adj, f2),
        0 <= v < h.len(),
        m <= h.len(),
    ensures
        inflow(f1, Seq::new(h.len(), |u: int| true), h, adj, v, m) == inflow(
            f2,
            Seq::new(h.len(), |u: int| true),
            h,
            adj,
            v,
            m,
        ),
    decreases i64::MAX - h[v], m,
{
    if m > 0 {
        lemma_inflow_equal(h, adj, f1, f2, v, m - 1);
        let u = m - 1;
        if downhill(h, adj, u) == Some(v as usize) {
            lemma_lowest_below(h, adj[u]@, h[u], adj[u]@.len() as int);
            assert(h[(v as usize) as int] < h[u]);
            assert(h[v] < h[u]);
            lemma_flux_equal_at(h, adj, f1, f2, u);
        }
    }
}

/// Flux accumulation is deterministic: for given heights and adjacency there is
/// exactly one balanced flux array.
pub proof fn lemma_flux_unique(h: Seq<i64>, adj: Seq<Vec<usize>>, f1: Seq<usize>, f2: Seq<usize>)
    requires
        h.len() <= usize::MAX,
        is_flux(h, adj, f1),
        is_flux(h, adj, f2),
    ensures
        f1 == f2,
{
    assert forall|v: int| 0 <= v < h.len() implies f1[v] == f2[v] by {
        lemma_flux_equal_at(h, adj, f1, f2, v);
    }
    assert(f1 =~= f2);
}

} // verus!
