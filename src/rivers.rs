//! The drainage network: a forest of rivers traced over the mesh graph with an
//! explicit work stack.
use vstd::prelude::*;
use crate::erosion::{get_flux, is_flux, valid_adjacency};
use crate::mesh::all_below;
use crate::sort::{sort_by_key, stable_sorted};

verus! {

/// A river: (node, flux) pairs from its mouth upstream.
pub type River = Vec<(usize, usize)>;

/// The number of cells among the first `m` of `cells` that stand above sea level.
pub open spec fn land_count(cells: Seq<usize>, cell_heights: Seq<i64>, sea_level: i64, m: int) -> int
    decreases m,
{
    if m <= 0 {
        0
    } else {
        land_count(cells, cell_heights, sea_level, m - 1) + if cell_heights[cells[m - 1] as int]
            > sea_level {
            1int
        } else {
            0
        }
    }
}

/// A node may carry a river: it stands at or above sea level, or it is an estuary
/// (at least two of its cells are land).
pub open spec fn may_carry(
    heights: Seq<i64>,
    sea_level: i64,
    cells: Seq<Vec<usize>>,
    cell_heights: Seq<i64>,
    x: int,
) -> bool {
    heights[x] >= sea_level || land_count(
        cells[x]@,
        cell_heights,
        sea_level,
        cells[x]@.len() as int,
    ) >= 2
}

/// A river may run from node `a` on to node `b`: `b` neighbours `a`, `b` lies
/// no lower than `a`, and no neighbour of `b` lies below `a`. Read from mouth to
/// source a river only climbs, so it runs downhill from source to mouth.
pub open spec fn river_step(heights: Seq<i64>, adj: Seq<Vec<usize>>, a: int, b: int) -> bool {
    &&& adj[a]@.contains(b as usize)
    &&& heights[b] >= heights[a]
    &&& forall|k: int| 0 <= k < adj[b]@.len() ==> heights[#[trigger] adj[b]@[k] as int] >= heights[a]
}

/// Whether no neighbour of `nb` lies below `limit`.
fn not_below(heights: &Vec<i64>, adjacent: &Vec<Vec<usize>>, nb: usize, limit: i64) -> (r: bool)
    requires
        valid_adjacency(adjacent@, heights@.len() as int),
        nb < heights@.len(),
    ensures
        r == none_below(heights@, adjacent@, nb as int, limit),
{
    let row = &adjacent[nb];
    proof {
        assert(all_below(adjacent@[nb as int]@, heights@.len() as int));
    }
    let mut k: usize = 0;
    while k < row.len()
        invariant
            k <= row@.len(),
            row@ == adjacent@[nb as int]@,
            all_below(row@, heights@.len() as int),
            forall|j: int| 0 <= j < k ==> heights@[#[trigger] row@[j] as int] >= limit,
        decreases row.len() - k,
    {
        if heights[row[k]] < limit {
            return false;
        }
        k = k + 1;
    }
    true
}

/// Whether node `x` may carry a river.
fn carries(
    heights: &Vec<i64>,
    sea_level: i64,
    voronoi_cells: &Vec<Vec<usize>>,
    cell_heights: &Vec<i64>,
    x: usize,
) -> (r: bool)
    requires
        x < heights@.len(),
        x < voronoi_cells@.len(),
        all_below(voronoi_cells@[x as int]@, cell_heights@.len() as int),
    ensures
        r == may_carry(heights@, sea_level, voronoi_cells@, cell_heights@, x as int),
{
    if heights[x] >= sea_level {
        return true;
    }
    let cells = &voronoi_cells[x];
    let mut count: usize = 0;
    let mut k: usize = 0;
    while k < cells.len()
        invariant
            k <= cells@.len(),
            cells@ == voronoi_cells@[x as int]@,
            all_below(cells@, cell_heights@.len() as int),
            count == land_count(cells@, cell_heights@, sea_level, k as int),
            count <= k,
        decreases cells.len() - k,
    {
        if cell_heights[cells[k]] > sea_level {
            count = count + 1;
        }
        k = k + 1;
    }
    count >= 2
}

/// The node at position `k` of river `r`.
pub open spec fn node_at(rivers: Seq<River>, r: int, k: int) -> int {
    rivers[r]@[k].0 as int
}

/// What holds of every river traced so far: its entries are nodes that may carry
/// a river, with their flux; each step runs as `river_step` allows; no node
/// stands twice in one river; and no node stands twice past the head of a river
/// (a head may repeat the confluence it joins).
pub open spec fn forest_ok(
    heights: Seq<i64>,
    adj: Seq<Vec<usize>>,
    sea_level: i64,
    cells: Seq<Vec<usize>>,
    cell_heights: Seq<i64>,
    flux: Seq<usize>,
    rivers: Seq<River>,
) -> bool {
    &&& forall|r: int, k: int|
        0 <= r < rivers.len() && 0 <= k < rivers[r]@.len() ==> {
            &&& 0 <= #[trigger] node_at(rivers, r, k) < heights.len()
            &&& rivers[r]@[k].1 == flux[node_at(rivers, r, k)]
            &&& may_carry(heights, sea_level, cells, cell_heights, node_at(rivers, r, k))
        }
    &&& forall|r: int, k: int|
        0 <= r < rivers.len() && 0 <= k && k + 1 < rivers[r]@.len() ==> river_step(
            heights,
            adj,
            #[trigger] node_at(rivers, r, k),
            node_at(rivers, r, k + 1),
        )
    &&& forall|r1: int, k1: int, r2: int, k2: int|
        0 <= r1 < rivers.len() && 1 <= k1 < rivers[r1]@.len() && 0 <= r2 < rivers.len() && 1 <= k2
            < rivers[r2]@.len() && (r1 != r2 || k1 != k2) ==> #[trigger] node_at(rivers, r1, k1)
            != #[trigger] node_at(rivers, r2, k2)
    &&& forall|r: int, k: int|
        0 <= r < rivers.len() && 1 <= k < rivers[r]@.len() ==> #[trigger] node_at(rivers, r, k) != node_at(
            rivers,
            r,
            0,
        )
}

/// A pending node of the walk: its neighbours, in ascending order of flux, are
/// taken from the end.
struct Frame {
    node: usize,
    river: usize,
    nbrs: Vec<usize>,
    taken: usize,
    main_found: bool,
}

/// Neighbours not yet taken, over all frames.
spec fn remaining(stack: Seq<Frame>) -> int
    decreases stack.len(),
{
    if stack.len() == 0 {
        0
    } else {
        remaining(stack.drop_last()) + (stack.last().nbrs@.len() - stack.last().taken)
    }
}

/// Nodes not yet visited among the first `m`.
spec fn unvisited(visited: Seq<bool>, m: int) -> int
    decreases m,
{
    if m <= 0 {
        0
    } else {
        unvisited(visited, m - 1) + if visited[m - 1] {
            0int
        } else {
            1
        }
    }
}

proof fn lemma_unvisited_mark(visited: Seq<bool>, m: int, x: int)
    requires
        0 <= x < visited.len(),
        m <= visited.len(),
        !visited[x],
    ensures
        unvisited(visited.update(x, true), m) == unvisited(visited, m) - if x < m {
            1int
        } else {
            0
        },
        unvisited(visited, m) >= 0,
    decreases m,
{
    if m > 0 {
        lemma_unvisited_mark(visited, m - 1, x);
    }
}

/// What holds of the frames on the stack.
spec fn frames_ok(
    heights: Seq<i64>,
    adj: Seq<Vec<usize>>,
    sea_level: i64,
    cells: Seq<Vec<usize>>,
    cell_heights: Seq<i64>,
    visited: Seq<bool>,
    rivers: Seq<River>,
    stack: Seq<Frame>,
) -> bool {
    &&& forall|a: int|
        0 <= a < stack.len() ==> {
            let f = #[trigger] stack[a];
            &&& f.node < heights.len()
            &&& visited[f.node as int]
            &&& may_carry(heights, sea_level, cells, cell_heights, f.node as int)
            &&& f.river < rivers.len()
            &&& f.taken <= f.nbrs@.len()
            &&& forall|j: int| 0 <= j < f.nbrs@.len() ==> adj[f.node as int]@.contains(#[trigger] f.nbrs@[j])
            &&& all_below(f.nbrs@, heights.len() as int)
            &&& !f.main_found ==> {
                &&& rivers[f.river as int]@.len() > 0
                &&& rivers[f.river as int]@.last().0 == f.node
                &&& forall|b: int| a < b < stack.len() ==> (#[trigger] stack[b]).river != f.river
            }
        }
}

/// What the river walk reads: heights, adjacency, sea level, the cells of each
/// node, cell heights, flux, the order key of each node's flux, and the order in
/// which nodes start rivers.
pub type WalkInputs = (
    Seq<i64>,
    Seq<Vec<usize>>,
    i64,
    Seq<Vec<usize>>,
    Seq<i64>,
    Seq<usize>,
    Seq<i64>,
    Seq<usize>,
);

/// A pending node of the walk: node, river, neighbours (taken from the end),
/// neighbours taken so far, and whether the river has been carried on.
pub type WalkFrame = (usize, usize, Seq<usize>, int, bool);

/// The walk's state: visited nodes, rivers so far, pending nodes, and the
/// position in the starting order.
pub type WalkState = (Seq<bool>, Seq<Seq<(usize, usize)>>, Seq<WalkFrame>, int);

/// The order key of a flux value.
pub open spec fn flux_order_key(f: usize) -> i64 {
    if f > i64::MAX {
        i64::MAX
    } else {
        f as i64
    }
}

/// No neighbour of `nb` lies below `limit`.
pub open spec fn none_below(heights: Seq<i64>, adj: Seq<Vec<usize>>, nb: int, limit: i64) -> bool {
    forall|k: int| 0 <= k < adj[nb]@.len() ==> heights[#[trigger] adj[nb]@[k] as int] >= limit
}

/// Entering node `x` on river `rid`: it is marked visited; where it may carry a
/// river it joins the river and waits with its neighbours in ascending flux order.
pub open spec fn enter_walk(inp: WalkInputs, s: WalkState, x: usize, rid: int) -> WalkState {
    let visited = s.0.update(x as int, true);
    if may_carry(inp.0, inp.2, inp.3, inp.4, x as int) {
        (
            visited,
            s.1.update(rid, s.1[rid].push((x, inp.5[x as int]))),
            s.2.push((x, rid as usize, stable_sorted(inp.1[x as int]@, inp.6), 0, false)),
            s.3,
        )
    } else {
        (visited, s.1, s.2, s.3)
    }
}

/// One step of the walk. The newest pending node takes its next neighbour by
/// descending flux: one already visited, lower than the pending node, or with a
/// neighbour below the pending node, is passed over; the first other one carries the river on; each further
/// one starts a tributary at the pending node. A node out of neighbours is done.
/// With nothing pending, the next node of the starting order that is not yet
/// visited starts a new river.
pub open spec fn walk_step(inp: WalkInputs, s: WalkState) -> WalkState {
    if s.2.len() > 0 {
        let top = s.2.last();
        let rest = s.2.drop_last();
        let node = top.0;
        let river = top.1;
        let nbrs = top.2;
        let taken = top.3;
        if taken < nbrs.len() {
            let nb = nbrs[nbrs.len() - 1 - taken];
            if s.0[nb as int] || inp.0[nb as int] < inp.0[node as int] || !none_below(
                inp.0,
                inp.1,
                nb as int,
                inp.0[node as int],
            ) {
                (s.0, s.1, rest.push((node, river, nbrs, taken + 1, top.4)), s.3)
            } else if !top.4 {
                enter_walk(inp, (s.0, s.1, rest.push((node, river, nbrs, taken + 1, true)), s.3), nb, river as int)
            } else {
                enter_walk(
                    inp,
                    (s.0, s.1.push(seq![(node, inp.5[node as int])]), rest.push((node, river, nbrs, taken + 1, true)), s.3),
                    nb,
                    s.1.len() as int,
                )
            }
        } else {
            (s.0, s.1, rest, s.3)
        }
    } else if 0 <= s.3 < inp.7.len() {
        let i = inp.7[s.3];
        if s.0[i as int] {
            (s.0, s.1, s.2, s.3 + 1)
        } else {
            enter_walk(inp, (s.0, s.1.push(Seq::empty()), s.2, s.3 + 1), i, s.1.len() as int)
        }
    } else {
        s
    }
}

/// The state after `k` steps.
pub open spec fn walk(inp: WalkInputs, s: WalkState, k: nat) -> WalkState
    decreases k,
{
    if k == 0 {
        s
    } else {
        walk(inp, walk_step(inp, s), (k - 1) as nat)
    }
}

/// The walk has ended: nothing pending, and the starting order used up.
pub open spec fn walk_done(inp: WalkInputs, s: WalkState) -> bool {
    s.2.len() == 0 && s.3 >= inp.7.len()
}

/// The rivers of more than one node, in order.
pub open spec fn long_rivers(rivers: Seq<Seq<(usize, usize)>>, m: int) -> Seq<Seq<(usize, usize)>>
    decreases m,
{
    if m <= 0 {
        Seq::empty()
    } else if rivers[m - 1].len() > 1 {
        long_rivers(rivers, m - 1).push(rivers[m - 1])
    } else {
        long_rivers(rivers, m - 1)
    }
}

/// The inputs of the walk over `heights`, `adj` and `flux`.
pub open spec fn walk_inputs(
    heights: Seq<i64>,
    adj: Seq<Vec<usize>>,
    sea_level: i64,
    cells: Seq<Vec<usize>>,
    cell_heights: Seq<i64>,
    flux: Seq<usize>,
) -> WalkInputs {
    (
        heights,
        adj,
        sea_level,
        cells,
        cell_heights,
        flux,
        flux.map_values(|f: usize| flux_order_key(f)),
        stable_sorted(Seq::new(heights.len(), |i: int| i as usize), heights),
    )
}

/// The walk starts with nothing visited, no river and nothing pending.
pub open spec fn walk_start(n: int) -> WalkState {
    (Seq::new(n as nat, |i: int| false), Seq::empty(), Seq::empty(), 0)
}

/// The forest the walk leaves once it has ended.
pub open spec fn traced_rivers(inp: WalkInputs, k: nat) -> Seq<Seq<(usize, usize)>> {
    walk(inp, walk_start(inp.0.len() as int), k).1
}

proof fn lemma_walk_last(inp: WalkInputs, s: WalkState, k: nat)
    ensures
        walk(inp, s, k + 1) == walk_step(inp, walk(inp, s, k)),
    decreases k,
{
    assert(walk(inp, s, k + 1) == walk(inp, walk_step(inp, s), k));
    if k > 0 {
        lemma_walk_last(inp, walk_step(inp, s), (k - 1) as nat);
        assert((k - 1) as nat + 1 == k);
        assert(walk(inp, s, k) == walk(inp, walk_step(inp, s), (k - 1) as nat));
    } else {
        assert(walk(inp, walk_step(inp, s), 0) == walk_step(inp, s));
    }
}

proof fn lemma_walk_done_stays(inp: WalkInputs, s: WalkState, k: nat)
    requires
        walk_done(inp, s),
    ensures
        walk(inp, s, k) == s,
    decreases k,
{
    if k > 0 {
        lemma_walk_done_stays(inp, s, (k - 1) as nat);
    }
}

proof fn lemma_walk_split(inp: WalkInputs, s: WalkState, a: nat, b: nat)
    ensures
        walk(inp, s, a + b) == walk(inp, walk(inp, s, a), b),
    decreases a,
{
    if a > 0 {
        lemma_walk_split(inp, walk_step(inp, s), (a - 1) as nat, b);
        assert((a - 1) as nat + b == (a + b - 1) as nat);
    }
}

/// The walk has one outcome: two runs that have both ended leave the same state.
pub proof fn lemma_walk_deterministic(inp: WalkInputs, s: WalkState, k1: nat, k2: nat)
    requires
        walk_done(inp, walk(inp, s, k1)),
        walk_done(inp, walk(inp, s, k2)),
    ensures
        walk(inp, s, k1) == walk(inp, s, k2),
{
    if k1 <= k2 {
        lemma_walk_split(inp, s, k1, (k2 - k1) as nat);
        assert(k1 + (k2 - k1) as nat == k2);
        lemma_walk_done_stays(inp, walk(inp, s, k1), (k2 - k1) as nat);
    } else {
        lemma_walk_split(inp, s, k2, (k1 - k2) as nat);
        assert(k2 + (k1 - k2) as nat == k1);
        lemma_walk_done_stays(inp, walk(inp, s, k2), (k1 - k2) as nat);
    }
}

spec fn frame_view(f: Frame) -> WalkFrame {
    (f.node, f.river, f.nbrs@, f.taken as int, f.main_found)
}

spec fn stack_view(s: Seq<Frame>) -> Seq<WalkFrame> {
    s.map_values(|f: Frame| frame_view(f))
}

/// The rivers as sequences.
pub open spec fn rivers_view(r: Seq<River>) -> Seq<Seq<(usize, usize)>> {
    r.map_values(|v: River| v@)
}

/// Every node past the head of a river has been visited.
spec fn marks_ok(visited: Seq<bool>, rivers: Seq<River>) -> bool {
    &&& forall|r: int, k: int|
        0 <= r < rivers.len() && 1 <= k < rivers[r]@.len() ==> visited[#[trigger] node_at(rivers, r, k)]
    &&& forall|r: int| 0 <= r < rivers.len() && (#[trigger] rivers[r])@.len() > 0 ==> visited[node_at(rivers, r, 0)]
}

/// The inputs of the walk fit together.
spec fn inputs_ok(
    heights: Seq<i64>,
    adj: Seq<Vec<usize>>,
    cells: Seq<Vec<usize>>,
    cell_heights: Seq<i64>,
    flux: Seq<usize>,
    keys: Seq<i64>,
) -> bool {
    &&& valid_adjacency(adj, heights.len() as int)
    &&& cells.len() == heights.len()
    &&& forall|x: int| 0 <= x < cells.len() ==> all_below((#[trigger] cells[x])@, cell_heights.len() as int)
    &&& flux.len() == heights.len()
    &&& keys.len() == heights.len()
}

/// A copy of `v`.
fn copy_of(v: &Vec<usize>) -> (r: Vec<usize>)
    ensures
        r@ == v@,
{
    let mut r: Vec<usize> = Vec::new();
    let mut k: usize = 0;
    while k < v.len()
        invariant
            k <= v@.len(),
            r@ == v@.subrange(0, k as int),
        decreases v.len() - k,
    {
        r.push(v[k]);
        k = k + 1;
    }
    assert(v@.subrange(0, k as int) =~= v@);
    r
}

/// Enters node `x` on river `rid`: marks it visited and, where it may carry a
/// river, appends it to the river and puts its frame on the stack.
#[verifier::rlimit(40)]
fn enter(
    heights: &Vec<i64>,
    adjacent: &Vec<Vec<usize>>,
    sea_level: i64,
    voronoi_cells: &Vec<Vec<usize>>,
    cell_heights: &Vec<i64>,
    flux: &Vec<usize>,
    keys: &Vec<i64>,
    visited: &mut Vec<bool>,
    rivers: &mut Vec<River>,
    stack: &mut Vec<Frame>,
    x: usize,
    rid: usize,
)
    requires
        inputs_ok(heights@, adjacent@, voronoi_cells@, cell_heights@, flux@, keys@),
        old(visited)@.len() == heights@.len(),
        x < heights@.len(),
        !old(visited)@[x as int],
        rid < old(rivers)@.len(),
        forest_ok(heights@, adjacent@, sea_level, voronoi_cells@, cell_heights@, flux@, old(rivers)@),
        frames_ok(heights@, adjacent@, sea_level, voronoi_cells@, cell_heights@, old(visited)@, old(rivers)@, old(stack)@),
        marks_ok(old(visited)@, old(rivers)@),
        old(rivers)@[rid as int]@.len() > 0 ==> river_step(
            heights@,
            adjacent@,
            old(rivers)@[rid as int]@.last().0 as int,
            x as int,
        ),
        forall|a: int| 0 <= a < old(stack)@.len() ==> (#[trigger] old(stack)@[a]).river != rid || old(stack)@[a].main_found,
    ensures
        forest_ok(heights@, adjacent@, sea_level, voronoi_cells@, cell_heights@, flux@, final(rivers)@),
        frames_ok(heights@, adjacent@, sea_level, voronoi_cells@, cell_heights@, final(visited)@, final(rivers)@, final(stack)@),
        marks_ok(final(visited)@, final(rivers)@),
        final(visited)@ == old(visited)@.update(x as int, true),
        final(rivers)@.len() == old(rivers)@.len(),
        final(stack)@.len() >= old(stack)@.len(),
        final(stack)@.subrange(0, old(stack)@.len() as int) == old(stack)@,
        ({
            let w = enter_walk(
                (heights@, adjacent@, sea_level, voronoi_cells@, cell_heights@, flux@, keys@, Seq::empty()),
                (old(visited)@, rivers_view(old(rivers)@), stack_view(old(stack)@), 0),
                x,
                rid as int,
            );
            final(visited)@ == w.0 && rivers_view(final(rivers)@) == w.1 && stack_view(final(stack)@) == w.2
        }),
{
    let ghost v0 = visited@;
    let ghost r0 = rivers@;
    let ghost s0 = stack@;
    visited.set(x, true);
    proof {
        assert forall|a: int| 0 <= a < s0.len() implies visited@[(#[trigger] s0[a]).node as int] by {
            assert(v0[s0[a].node as int]);
        }
        assert(frames_ok(heights@, adjacent@, sea_level, voronoi_cells@, cell_heights@, visited@, r0, s0));
        assert(marks_ok(visited@, r0));
        assert(stack@.subrange(0, s0.len() as int) =~= s0);
    }
    if !carries(heights, sea_level, voronoi_cells, cell_heights, x) {
        return;
    }
    let ghost rv0 = rivers_view(r0);
    let entry = (x, flux[x]);
    rivers[rid].push(entry);
    proof {
        let rv = rivers@;
        assert(rv[rid as int]@ == r0[rid as int]@.push(entry));
        assert(rv.len() == r0.len());
        assert forall|r: int, k: int| 0 <= r < rv.len() && 0 <= k < rv[r]@.len() implies
            node_at(rv, r, k) == if r == rid && k == r0[rid as int]@.len() { x as int } else { node_at(r0, r, k) } by {
            if r != rid {
                assert(rv[r] == r0[r]);
            }
        }
        assert forall|r: int, k: int| 0 <= r < rv.len() && 0 <= k < rv[r]@.len() implies
            rv[r]@[k] == if r == rid && k == r0[rid as int]@.len() { entry } else { r0[r]@[k] } by {
            if r != rid {
                assert(rv[r] == r0[r]);
            }
        }
        assert(forest_ok(heights@, adjacent@, sea_level, voronoi_cells@, cell_heights@, flux@, rv));
        assert(marks_ok(visited@, rv));
        assert forall|a: int| 0 <= a < s0.len() && !(#[trigger] s0[a]).main_found implies rv[s0[a].river as int]@.len() > 0
            && rv[s0[a].river as int]@.last().0 == s0[a].node by {
            assert(s0[a].river != rid);
            assert(rv[s0[a].river as int] == r0[s0[a].river as int]);
        }
        assert(frames_ok(heights@, adjacent@, sea_level, voronoi_cells@, cell_heights@, visited@, rv, s0));
    }
    let mut nbrs = copy_of(&adjacent[x]);
    proof {
        assert(all_below(adjacent@[x as int]@, heights@.len() as int));
    }
    sort_by_key(&mut nbrs, keys);
    proof {
        assert forall|j: int| 0 <= j < nbrs@.len() implies adjacent@[x as int]@.contains(#[trigger] nbrs@[j]) by {
            assert(nbrs@.contains(nbrs@[j]));
        }
        assert forall|j: int| 0 <= j < nbrs@.len() implies #[trigger] nbrs@[j] < heights@.len() by {
            assert(nbrs@.contains(nbrs@[j]));
            let q = choose|q: int| 0 <= q < adjacent@[x as int]@.len() && adjacent@[x as int]@[q] == nbrs@[j];
            assert(adjacent@[x as int]@[q] < heights@.len());
        }
    }
    stack.push(Frame { node: x, river: rid, nbrs, taken: 0, main_found: false });
    proof {
        assert(rivers_view(rivers@) =~= rv0.update(rid as int, rv0[rid as int].push(entry)));
        assert(stack_view(stack@) =~= stack_view(s0).push(
            (x, rid, stable_sorted(adjacent@[x as int]@, keys@), 0int, false),
        ));
        let st = stack@;
        assert(st.subrange(0, s0.len() as int) =~= s0);
        assert forall|a: int| 0 <= a < st.len() - 1 implies #[trigger] st[a] == s0[a] by {}
    }
}

proof fn lemma_unvisited_nonneg(visited: Seq<bool>, m: int)
    ensures
        unvisited(visited, m) >= 0,
    decreases m,
{
    if m > 0 {
        lemma_unvisited_nonneg(visited, m - 1);
    }
}

proof fn lemma_remaining_push(s: Seq<Frame>, f: Frame)
    ensures
        remaining(s.push(f)) == remaining(s) + (f.nbrs@.len() - f.taken),
{
    assert(s.push(f).drop_last() =~= s);
}

proof fn lemma_remaining_nonneg(s: Seq<Frame>)
    requires
        forall|a: int| 0 <= a < s.len() ==> (#[trigger] s[a]).taken <= s[a].nbrs@.len(),
    ensures
        remaining(s) >= 0,
    decreases s.len(),
{
    if s.len() > 0 {
        lemma_remaining_nonneg(s.drop_last());
    }
}

/// A copy of river `v`.
fn copy_river(v: &River) -> (r: River)
    ensures
        r@ == v@,
{
    let mut r: River = Vec::new();
    let mut k: usize = 0;
    while k < v.len()
        invariant
            k <= v@.len(),
            r@ == v@.subrange(0, k as int),
        decreases v.len() - k,
    {
        r.push(v[k]);
        k = k + 1;
    }
    assert(v@.subrange(0, k as int) =~= v@);
    r
}

/// The order key of a flux value.
fn flux_key(f: usize) -> (r: i64)
    ensures
        r == flux_order_key(f),
{
    if f as u64 > 9_223_372_036_854_775_807u64 {
        i64::MAX
    } else {
        f as i64
    }
}

/// The walk has advanced: fewer nodes unvisited, or as many and fewer
/// neighbours left to take, or as many of both and fewer pending nodes.
spec fn progressed(v0: Seq<bool>, s0: Seq<Frame>, v1: Seq<bool>, s1: Seq<Frame>, n: int) -> bool {
    ||| unvisited(v1, n) < unvisited(v0, n)
    ||| unvisited(v1, n) == unvisited(v0, n) && remaining(s1) < remaining(s0)
    ||| unvisited(v1, n) == unvisited(v0, n) && remaining(s1) == remaining(s0) && s1.len() < s0.len()
}

/// One step of the walk on a non-empty stack: the newest frame takes its next
/// neighbour by descending flux; the first that may continue the river carries it
/// on, each further one starts a tributary that begins at the confluence.
#[verifier::rlimit(80)]
fn advance(
    heights: &Vec<i64>,
    adjacent: &Vec<Vec<usize>>,
    sea_level: i64,
    voronoi_cells: &Vec<Vec<usize>>,
    cell_heights: &Vec<i64>,
    flux: &Vec<usize>,
    keys: &Vec<i64>,
    visited: &mut Vec<bool>,
    rivers: &mut Vec<River>,
    stack: &mut Vec<Frame>,
)
    requires
        inputs_ok(heights@, adjacent@, voronoi_cells@, cell_heights@, flux@, keys@),
        old(visited)@.len() == heights@.len(),
        old(stack)@.len() > 0,
        forest_ok(heights@, adjacent@, sea_level, voronoi_cells@, cell_heights@, flux@, old(rivers)@),
        frames_ok(heights@, adjacent@, sea_level, voronoi_cells@, cell_heights@, old(visited)@, old(rivers)@, old(stack)@),
        marks_ok(old(visited)@, old(rivers)@),
    ensures
        forest_ok(heights@, adjacent@, sea_level, voronoi_cells@, cell_heights@, flux@, final(rivers)@),
        frames_ok(heights@, adjacent@, sea_level, voronoi_cells@, cell_heights@, final(visited)@, final(rivers)@, final(stack)@),
        marks_ok(final(visited)@, final(rivers)@),
        final(visited)@.len() == heights@.len(),
        progressed(old(visited)@, old(stack)@, final(visited)@, final(stack)@, heights@.len() as int),
        ({
            let w = walk_step(
                (heights@, adjacent@, sea_level, voronoi_cells@, cell_heights@, flux@, keys@, Seq::empty()),
                (old(visited)@, rivers_view(old(rivers)@), stack_view(old(stack)@), 0),
            );
            final(visited)@ == w.0 && rivers_view(final(rivers)@) == w.1 && stack_view(final(stack)@) == w.2
        }),
{
    let ghost n = heights@.len() as int;
    let ghost s0 = stack@;
    let ghost v0 = visited@;
    let ghost rv0 = rivers_view(rivers@);
    let ghost inp = (heights@, adjacent@, sea_level, voronoi_cells@, cell_heights@, flux@, keys@, Seq::<usize>::empty());
    proof {
        lemma_remaining_nonneg(s0);
        assert(s0 =~= s0.drop_last().push(s0.last()));
        lemma_remaining_push(s0.drop_last(), s0.last());
        assert(s0[s0.len() - 1] == s0.last());
        lemma_unvisited_nonneg(v0, n);
    }
    let top = stack.pop().unwrap();
    proof {
        assert(stack@ =~= s0.drop_last());
        assert(stack_view(stack@) =~= stack_view(s0).drop_last());
        assert(stack_view(s0).last() == frame_view(top));
        assert forall|a: int| 0 <= a < stack@.len() implies #[trigger] stack@[a] == s0[a] by {}
    }
    let Frame { node, river, nbrs, taken, main_found } = top;
    if taken < nbrs.len() {
        let nb = nbrs[nbrs.len() - 1 - taken];
        let ghost f1 = Frame { node, river, nbrs, taken: (taken + 1) as usize, main_found };
        proof {
            lemma_remaining_push(stack@, f1);
            lemma_remaining_nonneg(stack@);
        }
        if visited[nb] || heights[nb] < heights[node] || !not_below(heights, adjacent, nb, heights[node]) {
            stack.push(Frame { node, river, nbrs, taken: taken + 1, main_found });
            proof {
                assert forall|a: int| 0 <= a < stack@.len() - 1 implies #[trigger] stack@[a] == s0[a] by {}
                assert(stack@.last() == f1);
                assert(stack@ =~= s0.drop_last().push(f1));
                assert(remaining(stack@) < remaining(s0));
                assert(stack_view(stack@) =~= stack_view(s0).drop_last().push(frame_view(f1)));
            }
        } else if !main_found {
            stack.push(Frame { node, river, nbrs, taken: taken + 1, main_found: true });
            let ghost st1 = stack@;
            proof {
                assert forall|a: int| 0 <= a < stack@.len() - 1 implies #[trigger] stack@[a] == s0[a] by {}
                assert forall|a: int| 0 <= a < stack@.len() implies (#[trigger] stack@[a]).river != river || stack@[a].main_found by {
                    if a < stack@.len() - 1 && !s0[a].main_found {
                        assert(s0[s0.len() - 1].river != s0[a].river);
                    }
                }
                lemma_unvisited_mark(visited@, n, nb as int);
                assert(stack_view(st1) =~= stack_view(s0).drop_last().push(
                    (node, river, nbrs@, taken + 1, true),
                ));
            }
            enter(heights, adjacent, sea_level, voronoi_cells, cell_heights, flux, keys, visited, rivers, stack, nb, river);
            assert(unvisited(visited@, n) < unvisited(v0, n));
        } else {
            stack.push(Frame { node, river, nbrs, taken: taken + 1, main_found: true });
            let ghost st1 = stack@;
            let ghost r0 = rivers@;
            let mut tributary: River = Vec::new();
            tributary.push((node, flux[node]));
            let tid = rivers.len();
            rivers.push(tributary);
            proof {
                assert forall|a: int| 0 <= a < stack@.len() - 1 implies #[trigger] stack@[a] == s0[a] by {}
                let rv = rivers@;
                assert forall|r: int, k: int| 0 <= r < rv.len() && 0 <= k < rv[r]@.len() implies
                    node_at(rv, r, k) == if r == tid { node as int } else { node_at(r0, r, k) } by {
                    if r < tid {
                        assert(rv[r] == r0[r]);
                    }
                }
                assert forall|r: int, k: int| 0 <= r < rv.len() && 0 <= k < rv[r]@.len() implies
                    rv[r]@[k] == if r == tid { (node, flux@[node as int]) } else { r0[r]@[k] } by {
                    if r < tid {
                        assert(rv[r] == r0[r]);
                    }
                }
                assert(forest_ok(heights@, adjacent@, sea_level, voronoi_cells@, cell_heights@, flux@, rv));
                assert(marks_ok(visited@, rv));
                assert forall|a: int| 0 <= a < stack@.len() && !(#[trigger] stack@[a]).main_found implies
                    rv[stack@[a].river as int]@.len() > 0 && rv[stack@[a].river as int]@.last().0 == stack@[a].node by {
                    assert(rv[stack@[a].river as int] == r0[stack@[a].river as int]);
                }
                assert(frames_ok(heights@, adjacent@, sea_level, voronoi_cells@, cell_heights@, visited@, rv, stack@));
                lemma_unvisited_mark(visited@, n, nb as int);
                assert(stack_view(st1) =~= stack_view(s0).drop_last().push(
                    (node, river, nbrs@, taken + 1, true),
                ));
                assert(rivers_view(rv) =~= rv0.push(seq![(node, flux@[node as int])]));
            }
            enter(heights, adjacent, sea_level, voronoi_cells, cell_heights, flux, keys, visited, rivers, stack, nb, tid);
            assert(unvisited(visited@, n) < unvisited(v0, n));
        }
    } else {
        assert(remaining(stack@) == remaining(s0));
    }
    proof {
        lemma_unvisited_nonneg(visited@, n);
        lemma_remaining_nonneg(stack@);
    }
}

/// Traces the drainage network. Nodes are taken in ascending order of height;
/// from each one not yet visited a river is walked upstream with an explicit
/// stack, branching into tributaries at confluences; it never steps to a lower
/// node, so each river runs downhill from source to mouth. A node below sea level
/// ends its river unless it is an estuary. Rivers of a single node are dropped.
pub fn get_rivers(
    heights: &Vec<i64>,
    adjacent: &Vec<Vec<usize>>,
    sea_level: i64,
    voronoi_cells: &Vec<Vec<usize>>,
    cell_heights: &Vec<i64>,
) -> (r: Vec<River>)
    requires
        valid_adjacency(adjacent@, heights@.len() as int),
        voronoi_cells@.len() == heights@.len(),
        forall|x: int| 0 <= x < voronoi_cells@.len() ==> all_below((#[trigger] voronoi_cells@[x])@, cell_heights@.len() as int),
    ensures
        forall|k: int| 0 <= k < r@.len() ==> (#[trigger] r@[k])@.len() > 1,
        exists|flux: Seq<usize>|
            is_flux(heights@, adjacent@, flux) && forest_ok(
                heights@,
                adjacent@,
                sea_level,
                voronoi_cells@,
                cell_heights@,
                flux,
                r@,
            ),
        exists|flux: Seq<usize>, k: nat|
            #![trigger is_flux(heights@, adjacent@, flux), traced_rivers(walk_inputs(heights@, adjacent@, sea_level, voronoi_cells@, cell_heights@, flux), k)]
            is_flux(heights@, adjacent@, flux) && walk_done(
                walk_inputs(heights@, adjacent@, sea_level, voronoi_cells@, cell_heights@, flux),
                walk(
                    walk_inputs(heights@, adjacent@, sea_level, voronoi_cells@, cell_heights@, flux),
                    walk_start(heights@.len() as int),
                    k,
                ),
            ) && rivers_view(r@) == long_rivers(
                traced_rivers(walk_inputs(heights@, adjacent@, sea_level, voronoi_cells@, cell_heights@, flux), k),
                traced_rivers(walk_inputs(heights@, adjacent@, sea_level, voronoi_cells@, cell_heights@, flux), k).len() as int,
            ),
{
    let n = heights.len();
    let flux = get_flux(heights, adjacent);
    let mut keys: Vec<i64> = Vec::new();
    let mut k: usize = 0;
    while k < n
        invariant
            k <= n == flux@.len(),
            keys@.len() == k,
            forall|j: int| 0 <= j < k ==> #[trigger] keys@[j] == flux_order_key(flux@[j]),
        decreases n - k,
    {
        keys.push(flux_key(flux[k]));
        k = k + 1;
    }
    let order = crate::sort::order_by_key(heights);
    let mut visited: Vec<bool> = vec![false; n];
    let mut rivers: Vec<River> = Vec::new();
    let mut stack: Vec<Frame> = Vec::new();
    let ghost inp = walk_inputs(heights@, adjacent@, sea_level, voronoi_cells@, cell_heights@, flux@);
    let ghost mut steps: nat = 0;
    let mut p: usize = 0;
    proof {
        assert(keys@ =~= flux@.map_values(|f: usize| flux_order_key(f)));
        assert(visited@ =~= Seq::new(n as nat, |i: int| false));
        assert((visited@, rivers_view(rivers@), stack_view(stack@), 0int) == walk_start(n as int));
    }
    loop
        invariant_except_break
            p <= n,
        invariant
            n == heights@.len(),
            order@ == inp.7,
            keys@ == inp.6,
            inp == walk_inputs(heights@, adjacent@, sea_level, voronoi_cells@, cell_heights@, flux@),
            order@.len() == n,
            crate::sort::indexes(order@, n as int),
            inputs_ok(heights@, adjacent@, voronoi_cells@, cell_heights@, flux@, keys@),
            visited@.len() == n,
            forest_ok(heights@, adjacent@, sea_level, voronoi_cells@, cell_heights@, flux@, rivers@),
            frames_ok(heights@, adjacent@, sea_level, voronoi_cells@, cell_heights@, visited@, rivers@, stack@),
            marks_ok(visited@, rivers@),
            (visited@, rivers_view(rivers@), stack_view(stack@), p as int) == walk(inp, walk_start(n as int), steps),
        ensures
            walk_done(inp, walk(inp, walk_start(n as int), steps)),
            (visited@, rivers_view(rivers@), stack_view(stack@), p as int) == walk(inp, walk_start(n as int), steps),
            forest_ok(heights@, adjacent@, sea_level, voronoi_cells@, cell_heights@, flux@, rivers@),
        decreases n - p, unvisited(visited@, n as int), remaining(stack@), stack@.len(),
    {
        proof {
            lemma_walk_last(inp, walk_start(n as int), steps);
            lemma_unvisited_nonneg(visited@, n as int);
            lemma_remaining_nonneg(stack@);
        }
        if stack.len() > 0 {
            advance(heights, adjacent, sea_level, voronoi_cells, cell_heights, &flux, &keys, &mut visited, &mut rivers, &mut stack);
            proof {
                steps = steps + 1;
            }
        } else if p < n {
            let i = order[p];
            p = p + 1;
            if !visited[i] {
                let rid = rivers.len();
                let ghost r0 = rivers@;
                rivers.push(Vec::new());
                proof {
                    let rv = rivers@;
                    assert forall|r: int| 0 <= r < r0.len() implies #[trigger] rv[r] == r0[r] by {}
                    assert(rv[rid as int]@.len() == 0);
                    assert forall|r: int, k: int| 0 <= r < rv.len() && 0 <= k < rv[r]@.len() implies
                        #[trigger] node_at(rv, r, k) == node_at(r0, r, k) && rv[r]@[k] == r0[r]@[k] && r < r0.len() by {
                        if r < r0.len() {
                            assert(rv[r] == r0[r]);
                        }
                    }
                    assert(forest_ok(heights@, adjacent@, sea_level, voronoi_cells@, cell_heights@, flux@, rv));
                    assert(marks_ok(visited@, rv));
                    assert(rivers_view(rv) =~= rivers_view(r0).push(Seq::empty()));
                    lemma_unvisited_mark(visited@, n as int, i as int);
                }
                enter(heights, adjacent, sea_level, voronoi_cells, cell_heights, &flux, &keys, &mut visited, &mut rivers, &mut stack, i, rid);
            }
            proof {
                steps = steps + 1;
            }
        } else {
            proof {
                assert(walk_done(inp, walk(inp, walk_start(n as int), steps)));
            }
            break;
        }
        proof {
            lemma_unvisited_nonneg(visited@, n as int);
            lemma_remaining_nonneg(stack@);
        }
    }
    let mut result: Vec<River> = Vec::new();
    let ghost mut picked: Seq<int> = Seq::empty();
    let mut q: usize = 0;
    while q < rivers.len()
        invariant
            q <= rivers@.len(),
            result@.len() == picked.len(),
            forall|a: int| 0 <= a < picked.len() ==> 0 <= #[trigger] picked[a] < q,
            forall|a: int, b: int| 0 <= a < b < picked.len() ==> #[trigger] picked[a] < #[trigger] picked[b],
            forall|a: int| 0 <= a < picked.len() ==> (#[trigger] result@[a])@ == rivers@[picked[a]]@,
            forall|a: int| 0 <= a < result@.len() ==> (#[trigger] result@[a])@.len() > 1,
            rivers_view(result@) == long_rivers(rivers_view(rivers@), q as int),
        decreases rivers.len() - q,
    {
        let ghost res0 = result@;
        if rivers[q].len() > 1 {
            result.push(copy_river(&rivers[q]));
            proof {
                picked = picked.push(q as int);
                assert(rivers_view(result@) =~= rivers_view(res0).push(rivers@[q as int]@));
            }
        }
        q = q + 1;
    }
    proof {
        let rv = rivers@;
        let out = result@;
        assert forall|r: int, k: int| 0 <= r < out.len() && 0 <= k < out[r]@.len() implies
            #[trigger] node_at(out, r, k) == node_at(rv, picked[r], k) && out[r]@[k] == rv[picked[r]]@[k] by {}
        assert forall|r1: int, k1: int, r2: int, k2: int|
            0 <= r1 < out.len() && 1 <= k1 < out[r1]@.len() && 0 <= r2 < out.len() && 1 <= k2
                < out[r2]@.len() && (r1 != r2 || k1 != k2) implies #[trigger] node_at(out, r1, k1)
                != #[trigger] node_at(out, r2, k2) by {
            assert(node_at(out, r1, k1) == node_at(rv, picked[r1], k1));
            assert(node_at(out, r2, k2) == node_at(rv, picked[r2], k2));
            if r1 != r2 {
                if r1 < r2 {
                    assert(picked[r1] < picked[r2]);
                } else {
                    assert(picked[r2] < picked[r1]);
                }
            }
        }
        assert forall|r: int, k: int|
            0 <= r < out.len() && 0 <= k && k + 1 < out[r]@.len() implies river_step(
                heights@,
                adjacent@,
                #[trigger] node_at(out, r, k),
                node_at(out, r, k + 1),
            ) by {
            assert(node_at(out, r, k + 1) == node_at(rv, picked[r], k + 1));
            assert(node_at(out, r, k) == node_at(rv, picked[r], k));
        }
        assert(forest_ok(heights@, adjacent@, sea_level, voronoi_cells@, cell_heights@, flux@, out));
        assert(traced_rivers(inp, steps) == rivers_view(rv));
        assert(rivers_view(rv).len() == rv.len());
    }
    result
}

/// No node stands twice in one river, and no node stands in two rivers but at
/// the head of one of them: a tributary begins at the confluence on the river it
/// joins, which is the only place where two rivers meet.
pub proof fn lemma_river_nodes_distinct(
    heights: Seq<i64>,
    adj: Seq<Vec<usize>>,
    sea_level: i64,
    cells: Seq<Vec<usize>>,
    cell_heights: Seq<i64>,
    flux: Seq<usize>,
    rivers: Seq<River>,
    r1: int,
    k1: int,
    r2: int,
    k2: int,
)
    requires
        forest_ok(heights, adj, sea_level, cells, cell_heights, flux, rivers),
        0 <= r1 < rivers.len(),
        0 <= k1 < rivers[r1]@.len(),
        0 <= r2 < rivers.len(),
        0 <= k2 < rivers[r2]@.len(),
        r1 != r2 || k1 != k2,
        r1 == r2 || (k1 >= 1 && k2 >= 1),
    ensures
        rivers[r1]@[k1].0 != rivers[r2]@[k2].0,
{
    if r1 == r2 && (k1 == 0 || k2 == 0) {
        if k1 == 0 {
            assert(node_at(rivers, r2, k2) != node_at(rivers, r2, 0));
        } else {
            assert(node_at(rivers, r1, k1) != node_at(rivers, r1, 0));
        }
    } else {
        assert(node_at(rivers, r1, k1) != node_at(rivers, r2, k2));
    }
}

/// Tracing rivers is reproducible: for given heights, adjacency, sea level and
/// cells, every run that ends leaves the same forest.
pub proof fn lemma_rivers_reproducible(
    heights: Seq<i64>,
    adj: Seq<Vec<usize>>,
    sea_level: i64,
    cells: Seq<Vec<usize>>,
    cell_heights: Seq<i64>,
    flux1: Seq<usize>,
    k1: nat,
    flux2: Seq<usize>,
    k2: nat,
)
    requires
        heights.len() <= usize::MAX,
        is_flux(heights, adj, flux1),
        is_flux(heights, adj, flux2),
        walk_done(
            walk_inputs(heights, adj, sea_level, cells, cell_heights, flux1),
            walk(walk_inputs(heights, adj, sea_level, cells, cell_heights, flux1), walk_start(heights.len() as int), k1),
        ),
        walk_done(
            walk_inputs(heights, adj, sea_level, cells, cell_heights, flux2),
            walk(walk_inputs(heights, adj, sea_level, cells, cell_heights, flux2), walk_start(heights.len() as int), k2),
        ),
    ensures
        traced_rivers(walk_inputs(heights, adj, sea_level, cells, cell_heights, flux1), k1) == traced_rivers(
            walk_inputs(heights, adj, sea_level, cells, cell_heights, flux2),
            k2,
        ),
{
    crate::erosion::lemma_flux_unique(heights, adj, flux1, flux2);
    lemma_walk_deterministic(
        walk_inputs(heights, adj, sea_level, cells, cell_heights, flux1),
        walk_start(heights.len() as int),
        k1,
        k2,
    );
}

} // verus!
