//! Coastlines: segments of Voronoi edges between land and sea.
use vstd::prelude::*;
use crate::mesh::all_below;

verus! {

/// Point `i` is a coast point: at or above sea level, with a neighbour below it.
pub open spec fn is_coast(heights: Seq<i64>, neighbors: Seq<Vec<usize>>, sea_level: i64, i: int) -> bool {
    heights[i] >= sea_level && exists|j: int|
        0 <= j < neighbors[i]@.len() && heights[#[trigger] neighbors[i]@[j] as int] < sea_level
}

/// The coast points among the first `m` points, in order.
pub open spec fn coast_upto(heights: Seq<i64>, neighbors: Seq<Vec<usize>>, sea_level: i64, m: int) -> Seq<
    usize,
>
    decreases m,
{
    if m <= 0 {
        Seq::empty()
    } else if is_coast(heights, neighbors, sea_level, m - 1) {
        coast_upto(heights, neighbors, sea_level, m - 1).push((m - 1) as usize)
    } else {
        coast_upto(heights, neighbors, sea_level, m - 1)
    }
}

/// Voronoi vertices `a` and `b` share a cell that lies below sea level.
pub open spec fn share_sea(heights: Seq<i64>, cells: Seq<Vec<usize>>, sea_level: i64, a: int, b: int) -> bool {
    exists|c: usize|
        #[trigger] cells[a]@.contains(c) && cells[b]@.contains(c) && heights[c as int] < sea_level
}

/// The coastline segments along the first `m` edges of the ring of Voronoi
/// vertices `ring` (edge `k` joins vertex `k` to the one before it, cyclically).
pub open spec fn ring_segments(
    heights: Seq<i64>,
    cells: Seq<Vec<usize>>,
    sea_level: i64,
    ring: Seq<usize>,
    m: int,
) -> Seq<(usize, usize)>
    decreases m,
{
    if m <= 0 {
        Seq::empty()
    } else {
        let point = ring[m - 1];
        let prev = if m - 1 == 0 {
            ring.last()
        } else {
            ring[m - 2]
        };
        let before = ring_segments(heights, cells, sea_level, ring, m - 1);
        if share_sea(heights, cells, sea_level, point as int, prev as int) {
            before.push((point, prev))
        } else {
            before
        }
    }
}

/// The coastline segments of the first `m` coast points.
pub open spec fn coast_segments(
    heights: Seq<i64>,
    points: Seq<Vec<usize>>,
    cells: Seq<Vec<usize>>,
    sea_level: i64,
    coast: Seq<usize>,
    m: int,
) -> Seq<(usize, usize)>
    decreases m,
{
    if m <= 0 {
        Seq::empty()
    } else {
        let ring = points[coast[m - 1] as int]@;
        coast_segments(heights, points, cells, sea_level, coast, m - 1) + ring_segments(
            heights,
            cells,
            sea_level,
            ring,
            ring.len() as int,
        )
    }
}

/// The coast points, in order.
pub fn get_coast_cells(heights: &Vec<i64>, neighbors: &Vec<Vec<usize>>, sea_level: i64) -> (r: Vec<usize>)
    requires
        neighbors@.len() == heights@.len(),
        forall|i: int| 0 <= i < neighbors@.len() ==> all_below((#[trigger] neighbors@[i])@, heights@.len() as int),
    ensures
        r@ == coast_upto(heights@, neighbors@, sea_level, heights@.len() as int),
{
    let n = heights.len();
    let mut coasts: Vec<usize> = Vec::new();
    let mut i: usize = 0;
    while i < n
        invariant
            i <= n == heights@.len(),
            neighbors@.len() == n,
            forall|x: int| 0 <= x < n ==> all_below((#[trigger] neighbors@[x])@, n as int),
            coasts@ == coast_upto(heights@, neighbors@, sea_level, i as int),
        decreases n - i,
    {
        if heights[i] >= sea_level {
            let row = &neighbors[i];
            let mut j: usize = 0;
            let mut sea_found = false;
            proof {
                assert(all_below(neighbors@[i as int]@, n as int));
            }
            while j < row.len()
                invariant
                    j <= row@.len(),
                    row@ == neighbors@[i as int]@,
                    all_below(row@, n as int),
                    n == heights@.len(),
                    sea_found == exists|k: int| 0 <= k < j && heights@[#[trigger] row@[k] as int] < sea_level,
                decreases row.len() - j,
            {
                if heights[row[j]] < sea_level {
                    sea_found = true;
                }
                j = j + 1;
            }
            if sea_found {
                coasts.push(i);
            }
        }
        i = i + 1;
    }
    coasts
}

/// A coastline segment joins two vertices of the ring of one coast point that
/// share a cell below sea level.
pub open spec fn segment_ok(
    heights: Seq<i64>,
    neighbors: Seq<Vec<usize>>,
    points: Seq<Vec<usize>>,
    cells: Seq<Vec<usize>>,
    sea_level: i64,
    seg: (usize, usize),
) -> bool {
    &&& share_sea(heights, cells, sea_level, seg.0 as int, seg.1 as int)
    &&& exists|c: int|
        0 <= c < heights.len() && is_coast(heights, neighbors, sea_level, c) && (#[trigger] points[c])@.contains(
            seg.0,
        ) && points[c]@.contains(seg.1)
}

/// Whether vertices `a` and `b` share a cell below sea level.
fn shares_sea(heights: &Vec<i64>, cells: &Vec<Vec<usize>>, sea_level: i64, a: usize, b: usize) -> (r: bool)
    requires
        a < cells@.len(),
        b < cells@.len(),
        all_below(cells@[a as int]@, heights@.len() as int),
    ensures
        r == share_sea(heights@, cells@, sea_level, a as int, b as int),
{
    let row = &cells[a];
    let mut k: usize = 0;
    while k < row.len()
        invariant
            k <= row@.len(),
            row@ == cells@[a as int]@,
            all_below(row@, heights@.len() as int),
            a < cells@.len(),
            b < cells@.len(),
            forall|j: int|
                0 <= j < k ==> !(cells@[b as int]@.contains(#[trigger] row@[j]) && heights@[row@[j] as int]
                    < sea_level),
        decreases row.len() - k,
    {
        let c = row[k];
        if heights[c] < sea_level && crate::mesh::holds(&cells[b], c) {
            proof {
                assert(cells@[a as int]@.contains(c));
            }
            return true;
        }
        k = k + 1;
    }
    proof {
        if share_sea(heights@, cells@, sea_level, a as int, b as int) {
            let c = choose|c: usize|
                #[trigger] cells@[a as int]@.contains(c) && cells@[b as int]@.contains(c) && heights@[c as int]
                    < sea_level;
            let j = choose|j: int| 0 <= j < row@.len() && row@[j] == c;
            assert(!(cells@[b as int]@.contains(row@[j]) && heights@[row@[j] as int] < sea_level));
        }
    }
    false
}

/// The coastline: for every coast point, in order, each edge of its ring of
/// Voronoi vertices (walked cyclically) whose two ends share a cell below sea
/// level, as (vertex, previous vertex).
pub fn get_coast_lines(
    heights: &Vec<i64>,
    neighbors: &Vec<Vec<usize>>,
    voronoi_points: &Vec<Vec<usize>>,
    voronoi_cells: &Vec<Vec<usize>>,
    sea_level: i64,
) -> (r: Vec<(usize, usize)>)
    requires
        neighbors@.len() == heights@.len(),
        voronoi_points@.len() == heights@.len(),
        forall|i: int| 0 <= i < heights@.len() ==> all_below((#[trigger] neighbors@[i])@, heights@.len() as int),
        forall|i: int| 0 <= i < heights@.len() ==> all_below((#[trigger] voronoi_points@[i])@, voronoi_cells@.len() as int),
        forall|t: int| 0 <= t < voronoi_cells@.len() ==> all_below((#[trigger] voronoi_cells@[t])@, heights@.len() as int),
    ensures
        r@ == coast_segments(
            heights@,
            voronoi_points@,
            voronoi_cells@,
            sea_level,
            coast_upto(heights@, neighbors@, sea_level, heights@.len() as int),
            coast_upto(heights@, neighbors@, sea_level, heights@.len() as int).len() as int,
        ),
        forall|q: int|
            0 <= q < r@.len() ==> segment_ok(heights@, neighbors@, voronoi_points@, voronoi_cells@, sea_level, #[trigger] r@[q]),
{
    let coast_cells = get_coast_cells(heights, neighbors, sea_level);
    let ghost coast = coast_cells@;
    let n = heights.len();
    proof {
        lemma_coast_upto(heights@, neighbors@, sea_level, n as int);
    }
    let mut coast_lines: Vec<(usize, usize)> = Vec::new();
    let mut k: usize = 0;
    while k < coast_cells.len()
        invariant
            k <= coast.len(),
            coast == coast_cells@,
            coast == coast_upto(heights@, neighbors@, sea_level, heights@.len() as int),
            forall|a: int| 0 <= a < coast.len() ==> #[trigger] coast[a] < heights@.len() && is_coast(heights@, neighbors@, sea_level, coast[a] as int),
            voronoi_points@.len() == heights@.len(),
            forall|i: int| 0 <= i < heights@.len() ==> all_below((#[trigger] voronoi_points@[i])@, voronoi_cells@.len() as int),
            forall|t: int| 0 <= t < voronoi_cells@.len() ==> all_below((#[trigger] voronoi_cells@[t])@, heights@.len() as int),
            coast_lines@ == coast_segments(heights@, voronoi_points@, voronoi_cells@, sea_level, coast, k as int),
            forall|q: int|
                0 <= q < coast_lines@.len() ==> segment_ok(heights@, neighbors@, voronoi_points@, voronoi_cells@, sea_level, #[trigger] coast_lines@[q]),
        decreases coast.len() - k,
    {
        let cell = coast_cells[k];
        let points = &voronoi_points[cell];
        let len = points.len();
        let ghost base = coast_lines@;
        proof {
            assert(coast[k as int] < heights@.len());
            assert(all_below(voronoi_points@[cell as int]@, voronoi_cells@.len() as int));
        }
        if len > 0 {
            let mut prev = points[len - 1];
            let mut i: usize = 0;
            while i < len
                invariant
                    i <= len == points@.len(),
                    points@ == voronoi_points@[cell as int]@,
                    cell < heights@.len(),
                    is_coast(heights@, neighbors@, sea_level, cell as int),
                    all_below(points@, voronoi_cells@.len() as int),
                    forall|t: int| 0 <= t < voronoi_cells@.len() ==> all_below((#[trigger] voronoi_cells@[t])@, heights@.len() as int),
                    prev == if i == 0 { points@.last() } else { points@[i - 1] },
                    coast_lines@ == base + ring_segments(heights@, voronoi_cells@, sea_level, points@, i as int),
                    forall|q: int|
                        0 <= q < coast_lines@.len() ==> segment_ok(heights@, neighbors@, voronoi_points@, voronoi_cells@, sea_level, #[trigger] coast_lines@[q]),
                decreases len - i,
            {
                let point = points[i];
                proof {
                    assert(points@[i as int] < voronoi_cells@.len());
                    assert(points@[len - 1] < voronoi_cells@.len());
                }
                if shares_sea(heights, voronoi_cells, sea_level, point, prev) {
                    let ghost before = coast_lines@;
                    coast_lines.push((point, prev));
                    proof {
                        assert(voronoi_points@[cell as int]@.contains(point));
                        if i == 0 {
                            assert(voronoi_points@[cell as int]@.contains(points@[len - 1]));
                        } else {
                            assert(voronoi_points@[cell as int]@.contains(points@[i - 1]));
                        }
                        assert(voronoi_points@[cell as int]@.contains(prev));
                        assert(0 <= cell < heights@.len() && is_coast(heights@, neighbors@, sea_level, cell as int));
                        assert(share_sea(heights@, voronoi_cells@, sea_level, point as int, prev as int));
                        let c = cell as int;
                        assert(0 <= c < heights@.len() && is_coast(heights@, neighbors@, sea_level, c)
                            && voronoi_points@[c]@.contains(point) && voronoi_points@[c]@.contains(prev));
                        assert(segment_ok(heights@, neighbors@, voronoi_points@, voronoi_cells@, sea_level, (point, prev)));
                        assert forall|q: int| 0 <= q < coast_lines@.len() implies segment_ok(heights@, neighbors@, voronoi_points@, voronoi_cells@, sea_level, #[trigger] coast_lines@[q]) by {
                            if q < before.len() {
                                assert(coast_lines@[q] == before[q]);
                            }
                        }
                    }
                }
                proof {
                    assert(coast_lines@ =~= base + ring_segments(heights@, voronoi_cells@, sea_level, points@, i + 1));
                }
                prev = point;
                i = i + 1;
            }
        }
        k = k + 1;
        proof {
            assert(coast_lines@ =~= coast_segments(heights@, voronoi_points@, voronoi_cells@, sea_level, coast, k as int));
        }
    }
    coast_lines
}

proof fn lemma_coast_upto(heights: Seq<i64>, neighbors: Seq<Vec<usize>>, sea_level: i64, m: int)
    requires
        0 <= m <= heights.len(),
        heights.len() <= usize::MAX,
    ensures
        forall|a: int|
            0 <= a < coast_upto(heights, neighbors, sea_level, m).len() ==> #[trigger] coast_upto(heights, neighbors, sea_level, m)[a] < m
                && is_coast(heights, neighbors, sea_level, coast_upto(heights, neighbors, sea_level, m)[a] as int),
    decreases m,
{
    if m > 0 {
        lemma_coast_upto(heights, neighbors, sea_level, m - 1);
        let prev = coast_upto(heights, neighbors, sea_level, m - 1);
        let cur = coast_upto(heights, neighbors, sea_level, m);
        assert forall|a: int| 0 <= a < cur.len() implies #[trigger] cur[a] < m && is_coast(heights, neighbors, sea_level, cur[a] as int) by {
            if a < prev.len() {
                assert(cur[a] == prev[a]);
            }
        }
    }
}

/// Voronoi vertex `t` has a cell below sea level and a cell at or above it.
pub open spec fn mixed_vertex(heights: Seq<i64>, cells: Seq<Vec<usize>>, sea_level: i64, t: int) -> bool {
    &&& exists|c: usize| #[trigger] cells[t]@.contains(c) && heights[c as int] < sea_level
    &&& exists|c: usize| #[trigger] cells[t]@.contains(c) && heights[c as int] >= sea_level
}

/// Every coastline segment joins two coast vertices: each end borders both sea and
/// land, so no segment touches a vertex surrounded by sea alone or by land alone.
pub proof fn lemma_coast_segment_ends(
    heights: Seq<i64>,
    neighbors: Seq<Vec<usize>>,
    points: Seq<Vec<usize>>,
    cells: Seq<Vec<usize>>,
    sea_level: i64,
    seg: (usize, usize),
)
    requires
        heights.len() <= usize::MAX,
        forall|c: int, t: usize|
            0 <= c < points.len() && #[trigger] points[c]@.contains(t) ==> cells[t as int]@.contains(
                c as usize,
            ),
        points.len() == heights.len(),
        segment_ok(heights, neighbors, points, cells, sea_level, seg),
    ensures
        mixed_vertex(heights, cells, sea_level, seg.0 as int),
        mixed_vertex(heights, cells, sea_level, seg.1 as int),
{
    let c = choose|c: int|
        0 <= c < heights.len() && is_coast(heights, neighbors, sea_level, c) && (#[trigger] points[c])@.contains(
            seg.0,
        ) && points[c]@.contains(seg.1);
    assert(cells[seg.0 as int]@.contains(c as usize));
    assert(cells[seg.1 as int]@.contains(c as usize));
    assert(heights[(c as usize) as int] >= sea_level);
    let s = choose|s: usize|
        #[trigger] cells[seg.0 as int]@.contains(s) && cells[seg.1 as int]@.contains(s) && heights[s as int]
            < sea_level;
    assert(cells[seg.1 as int]@.contains(s));
}

} // verus!
