//! Mesh topology: a Delaunay triangulation given as half-edges, and the Voronoi
//! dual derived from it (incident edges, vertex rings, cell adjacency).
use vstd::prelude::*;
use crate::sort::distinct;

verus! {

/// Marks a missing half-edge (a hull edge) or a missing incident edge.
pub const EMPTY: usize = usize::MAX;

/// Why a mesh cannot be built.
#[derive(Debug, Clone, Copy, PartialEq, Eq)]
pub enum MeshError {
    /// Fewer than three points.
    TooFewPoints,
    /// No triangle at all: every point lies on one line.
    Collinear,
    /// A point has no incident half-edge: it coincides with another point.
    CoincidentPoint,
    /// The triangle or half-edge arrays do not describe a triangulation.
    InvalidTriangulation,
}

/// The half-edge that follows `e` within its triangle.
pub open spec fn next_edge(e: int) -> int {
    if e % 3 == 2 {
        e - 2
    } else {
        e + 1
    }
}

/// The half-edge that follows `e` within its triangle.
pub fn next_halfedge(e: usize) -> (r: usize)
    requires
        e < EMPTY,
    ensures
        r == next_edge(e as int),
{
    if e % 3 == 2 {
        e - 2
    } else {
        e + 1
    }
}

/// Each half-edge is EMPTY or a valid half-edge whose opposite is itself again.
pub open spec fn halfedges_paired(he: Seq<usize>) -> bool {
    forall|e: int|
        0 <= e < he.len() && #[trigger] he[e] != EMPTY ==> he[e] < he.len() && he[he[e] as int]
            == e
}

/// Each defined half-edge and its opposite lie in different triangles and join
/// the same two vertices in opposite directions.
pub open spec fn twins_match(tri: Seq<usize>, he: Seq<usize>) -> bool {
    forall|e: int|
        0 <= e < he.len() && #[trigger] he[e] != EMPTY ==> he[e] / 3 != e / 3 && tri[he[e] as int]
            == tri[next_edge(e)] && tri[next_edge(he[e] as int)] == tri[e]
}

/// Every entry of `s` is below `n`.
pub open spec fn all_below(s: Seq<usize>, n: int) -> bool {
    forall|k: int| 0 <= k < s.len() ==> #[trigger] s[k] < n
}

/// Triangles as vertex triples, their half-edges and the hull of a point set.
pub struct Triangulation {
    pub triangles: Vec<usize>,
    pub halfedges: Vec<usize>,
    pub hull: Vec<usize>,
}

/// The triangle and half-edge arrays of a triangulation of `n` points.
pub open spec fn mesh_arrays(tri: Seq<usize>, he: Seq<usize>, n: int) -> bool {
    &&& tri.len() == he.len()
    &&& tri.len() % 3 == 0
    &&& tri.len() < EMPTY
    &&& all_below(tri, n)
    &&& halfedges_paired(he)
    &&& twins_match(tri, he)
}

impl Triangulation {
    /// Well-formed for a set of `n` points.
    pub open spec fn wf(&self, n: int) -> bool {
        &&& n >= 3
        &&& mesh_arrays(self.triangles@, self.halfedges@, n)
        &&& all_below(self.hull@, n)
    }

    /// Checks the arrays of a triangulation of `n_points` points.
    pub fn new(n_points: usize, triangles: Vec<usize>, halfedges: Vec<usize>, hull: Vec<usize>) -> (r:
        Result<Triangulation, MeshError>)
        ensures
            n_points < 3 <==> r == Err::<Triangulation, MeshError>(MeshError::TooFewPoints),
            n_points >= 3 ==> (r is Err <==> !(mesh_arrays(triangles@, halfedges@, n_points as int)
                && all_below(hull@, n_points as int))),
            r is Err ==> r->Err_0 == MeshError::TooFewPoints || r->Err_0
                == MeshError::InvalidTriangulation,
            r is Ok ==> r->Ok_0.wf(n_points as int) && r->Ok_0.triangles@ == triangles@
                && r->Ok_0.halfedges@ == halfedges@ && r->Ok_0.hull@ == hull@,
    {
        if n_points < 3 {
            return Err(MeshError::TooFewPoints);
        }
        let len = triangles.len();
        if len != halfedges.len() || len % 3 != 0 || len == EMPTY {
            return Err(MeshError::InvalidTriangulation);
        }
        if !all_less_than(&triangles, n_points) || !all_less_than(&hull, n_points) {
            return Err(MeshError::InvalidTriangulation);
        }
        let mut e: usize = 0;
        while e < len
            invariant
                e <= len == halfedges@.len(),
                len == triangles@.len(),
                len % 3 == 0,
                len < EMPTY,
                n_points >= 3,
                forall|f: int|
                    0 <= f < e && #[trigger] halfedges@[f] != EMPTY ==> halfedges@[f] < len
                        && halfedges@[halfedges@[f] as int] == f,
                forall|f: int|
                    0 <= f < e && #[trigger] halfedges@[f] != EMPTY ==> halfedges@[f] / 3 != f / 3
                        && triangles@[halfedges@[f] as int] == triangles@[next_edge(f)]
                        && triangles@[next_edge(halfedges@[f] as int)] == triangles@[f],
            decreases len - e,
        {
            let h = halfedges[e];
            if h != EMPTY {
                if h >= len || halfedges[h] != e || h / 3 == e / 3 {
                    return Err(MeshError::InvalidTriangulation);
                }
                if triangles[h] != triangles[next_halfedge(e)] || triangles[next_halfedge(h)] != triangles[e] {
                    return Err(MeshError::InvalidTriangulation);
                }
            }
            e = e + 1;
        }
        Ok(Triangulation { triangles, halfedges, hull })
    }
}

/// Whether every entry of `v` is below `n`.
fn all_less_than(v: &Vec<usize>, n: usize) -> (r: bool)
    ensures
        r == all_below(v@, n as int),
{
    let mut k: usize = 0;
    while k < v.len()
        invariant
            k <= v@.len(),
            all_below(v@.subrange(0, k as int), n as int),
        decreases v.len() - k,
    {
        if v[k] >= n {
            return false;
        }
        proof {
            assert forall|j: int| 0 <= j < k + 1 implies #[trigger] v@.subrange(0, k + 1)[j] < n by {
                if j < k {
                    assert(v@.subrange(0, k as int)[j] == v@[j]);
                }
            }
        }
        k = k + 1;
    }
    assert(v@.subrange(0, k as int) =~= v@);
    true
}

/// Whether `v` holds `x`.
pub(crate) fn holds(v: &Vec<usize>, x: usize) -> (r: bool)
    ensures
        r == v@.contains(x),
{
    let mut k: usize = 0;
    while k < v.len()
        invariant
            k <= v@.len(),
            forall|j: int| 0 <= j < k ==> v@[j] != x,
        decreases v.len() - k,
    {
        if v[k] == x {
            return true;
        }
        k = k + 1;
    }
    false
}

/// The incident edge chosen for vertex `p` after scanning the half-edges below `m`:
/// the last boundary edge into `p`, or else the first edge into `p`.
pub open spec fn inedge_upto(tri: Seq<usize>, he: Seq<usize>, p: int, m: int) -> usize
    decreases m,
{
    if m <= 0 {
        EMPTY
    } else {
        let prev = inedge_upto(tri, he, p, m - 1);
        let e = m - 1;
        if tri[next_edge(e)] == p && (he[e] == EMPTY || prev == EMPTY) {
            e as usize
        } else {
            prev
        }
    }
}

/// The chosen incident edge of `p` is EMPTY or a half-edge that ends in `p`.
proof fn lemma_inedge_ends_at(tri: Seq<usize>, he: Seq<usize>, p: int, m: int)
    requires
        0 <= m <= tri.len(),
        tri.len() < EMPTY,
    ensures
        inedge_upto(tri, he, p, m) == EMPTY || (inedge_upto(tri, he, p, m) < m
            && tri[next_edge(inedge_upto(tri, he, p, m) as int)] == p),
    decreases m,
{
    if m > 0 {
        lemma_inedge_ends_at(tri, he, p, m - 1);
    }
}

/// The triangles met walking around vertex `i`, from half-edge `e` on, where the
/// walk started at `e0` and may take `fuel` more steps: the walk stops at the hull
/// (EMPTY), on closing the ring, on an edge that does not lead back to `i`, or when
/// the fuel is spent.
pub open spec fn ring(tri: Seq<usize>, he: Seq<usize>, i: int, e0: int, e: int, fuel: nat) -> Seq<
    usize,
>
    decreases fuel,
{
    let t = (e / 3) as usize;
    let nx = next_edge(e);
    if fuel == 0 || !(0 <= nx < tri.len()) || tri[nx] != i || he[nx] == EMPTY || he[nx] == e0 {
        seq![t]
    } else {
        seq![t] + ring(tri, he, i, e0, he[nx] as int, (fuel - 1) as nat)
    }
}

/// The triangles around vertex `i`, in walking order from its incident edge `e0`.
pub open spec fn vertex_ring(tri: Seq<usize>, he: Seq<usize>, i: int, e0: int) -> Seq<usize> {
    ring(tri, he, i, e0, e0, he.len())
}

/// `a` is directly followed by `b` somewhere in `s`.
pub open spec fn follows(s: Seq<usize>, a: usize, b: usize) -> bool {
    exists|k: int| 0 <= k && k + 1 < s.len() && #[trigger] s[k] == a && s[k + 1] == b
}

/// `a` and `b` stand side by side somewhere in `s`, in either order.
pub open spec fn joins(s: Seq<usize>, a: usize, b: usize) -> bool {
    follows(s, a, b) || follows(s, b, a)
}

/// Triangles `a` and `b` stand side by side in the ring of some vertex.
pub open spec fn linked(rings: Seq<Vec<usize>>, a: usize, b: usize) -> bool {
    exists|x: int| 0 <= x < rings.len() && #[trigger] joins(rings[x]@, a, b)
}

/// Cell adjacency is symmetric.
pub open spec fn symmetric(adj: Seq<Vec<usize>>) -> bool {
    forall|a: int, b: int|
        0 <= a < adj.len() && 0 <= b < adj.len() ==> (adj[a]@.contains(b as usize)
            <==> adj[b]@.contains(a as usize))
}

proof fn lemma_push_contains(s: Seq<usize>, v: usize)
    ensures
        forall|x: usize| #[trigger] s.push(v).contains(x) <==> s.contains(x) || x == v,
{
    assert forall|x: usize| #[trigger] s.push(v).contains(x) <==> s.contains(x) || x == v by {
        if s.contains(x) {
            let k = choose|k: int| 0 <= k < s.len() && s[k] == x;
            assert(s.push(v)[k] == x);
        }
        if x == v {
            assert(s.push(v)[s.len() as int] == x);
        }
        if s.push(v).contains(x) && x != v {
            let k = choose|k: int| 0 <= k < s.len() + 1 && s.push(v)[k] == x;
            assert(s[k] == x);
        }
    }
}

proof fn lemma_follows_push(s: Seq<usize>, v: usize, a: usize, b: usize)
    ensures
        follows(s.push(v), a, b) <==> follows(s, a, b) || (s.len() > 0 && s.last() == a && v == b),
{
    let t = s.push(v);
    if follows(s, a, b) {
        let k = choose|k: int| 0 <= k && k + 1 < s.len() && #[trigger] s[k] == a && s[k + 1] == b;
        assert(t[k] == a && t[k + 1] == b);
    }
    if s.len() > 0 && s.last() == a && v == b {
        let k = s.len() - 1;
        assert(t[k] == a && t[k + 1] == b);
    }
    if follows(t, a, b) {
        let k = choose|k: int| 0 <= k && k + 1 < t.len() && #[trigger] t[k] == a && t[k + 1] == b;
        if k + 1 < s.len() {
            assert(s[k] == a && s[k + 1] == b);
        }
    }
}

/// Pushing `v` onto ring `i` links exactly the pairs it linked before, and the last
/// triangle of that ring with `v`.
proof fn lemma_linked_push(rings: Seq<Vec<usize>>, next: Seq<Vec<usize>>, i: int, v: usize)
    requires
        0 <= i < rings.len(),
        next.len() == rings.len(),
        forall|x: int| 0 <= x < rings.len() && x != i ==> next[x]@ == rings[x]@,
        next[i]@ == rings[i]@.push(v),
    ensures
        forall|a: usize, b: usize|
            #[trigger] linked(next, a, b) <==> linked(rings, a, b) || (rings[i]@.len() > 0 && ((
            rings[i]@.last() == a && v == b) || (rings[i]@.last() == b && v == a))),
{
    assert forall|a: usize, b: usize|
        #[trigger] linked(next, a, b) <==> linked(rings, a, b) || (rings[i]@.len() > 0 && ((
        rings[i]@.last() == a && v == b) || (rings[i]@.last() == b && v == a))) by {
        lemma_follows_push(rings[i]@, v, a, b);
        lemma_follows_push(rings[i]@, v, b, a);
        if linked(rings, a, b) {
            let x = choose|x: int| 0 <= x < rings.len() && #[trigger] joins(rings[x]@, a, b);
            if x != i {
                assert(joins(next[x]@, a, b));
            } else {
                assert(joins(next[i]@, a, b));
            }
        }
        if rings[i]@.len() > 0 && ((rings[i]@.last() == a && v == b) || (rings[i]@.last() == b
            && v == a)) {
            assert(joins(next[i]@, a, b));
        }
        if linked(next, a, b) {
            let x = choose|x: int| 0 <= x < next.len() && #[trigger] joins(next[x]@, a, b);
            if x != i {
                assert(joins(rings[x]@, a, b));
            } else if joins(rings[i]@, a, b) {
                assert(linked(rings, a, b));
            }
        }
    }
}

/// Adjacency as the rings give it is symmetric.
proof fn lemma_linked_symmetric(rings: Seq<Vec<usize>>, a: usize, b: usize)
    ensures
        linked(rings, a, b) <==> linked(rings, b, a),
{
    if linked(rings, a, b) {
        let x = choose|x: int| 0 <= x < rings.len() && #[trigger] joins(rings[x]@, a, b);
        assert(joins(rings[x]@, b, a));
    }
    if linked(rings, b, a) {
        let x = choose|x: int| 0 <= x < rings.len() && #[trigger] joins(rings[x]@, b, a);
        assert(joins(rings[x]@, a, b));
    }
}

/// The half-edge on which the walk around vertex `i` ends: the next edge where it
/// does not lead back to `i`, else the opposite edge (EMPTY on the hull, `e0` on
/// closing the ring, or wherever the fuel ran out).
pub open spec fn ring_end(tri: Seq<usize>, he: Seq<usize>, i: int, e0: int, e: int, fuel: nat) -> usize
    decreases fuel,
{
    let nx = next_edge(e);
    if !(0 <= nx < tri.len()) || tri[nx] != i {
        nx as usize
    } else if he[nx] == EMPTY || he[nx] == e0 || fuel == 0 {
        he[nx]
    } else {
        ring_end(tri, he, i, e0, he[nx] as int, (fuel - 1) as nat)
    }
}

/// The fan triples (vertex, triangle, previous triangle) of the first `m`
/// triangles of ring `r` around vertex `i`.
pub open spec fn fan_pairs(i: usize, r: Seq<usize>, m: int) -> Seq<usize>
    decreases m,
{
    if m <= 1 {
        Seq::empty()
    } else {
        fan_pairs(i, r, m - 1) + seq![i, r[m - 1], r[m - 2]]
    }
}

/// The fan of vertex `i`: a triple for each step of its ring, and, where the
/// walk closed the ring, a closing triple from its first triangle to its last.
pub open spec fn vertex_fan(tri: Seq<usize>, he: Seq<usize>, i: int, e0: int) -> Seq<usize> {
    let r = vertex_ring(tri, he, i, e0);
    let pairs = fan_pairs(i as usize, r, r.len() as int);
    if ring_end(tri, he, i, e0, e0, he.len()) == e0 {
        pairs + seq![i as usize, (e0 / 3) as usize, r.last()]
    } else {
        pairs
    }
}

/// The fans of the first `m` vertices, one after another.
pub open spec fn all_fans(tri: Seq<usize>, he: Seq<usize>, inedges: Seq<usize>, m: int) -> Seq<usize>
    decreases m,
{
    if m <= 0 {
        Seq::empty()
    } else {
        all_fans(tri, he, inedges, m - 1) + vertex_fan(tri, he, m - 1, inedges[m - 1] as int)
    }
}

proof fn lemma_fan_prefix(i: usize, r: Seq<usize>, t: usize, m: int)
    requires
        m <= r.len(),
    ensures
        fan_pairs(i, r.push(t), m) == fan_pairs(i, r, m),
    decreases m,
{
    if m > 1 {
        lemma_fan_prefix(i, r, t, m - 1);
        assert(r.push(t)[m - 1] == r[m - 1]);
        assert(r.push(t)[m - 2] == r[m - 2]);
    }
}

/// The Delaunay side of the mesh: the triangulation with, per vertex, its
/// incident edge and its neighbouring vertices.
pub struct Delaunay {
    pub hull: Vec<usize>,
    pub inedges: Vec<usize>,
    pub halfedges: Vec<usize>,
    pub triangles: Vec<usize>,
    pub neighbors: Vec<Vec<usize>>,
}

/// The Voronoi dual: one node per triangle (its circumcenter), and the incidence
/// between triangles and vertices.
pub struct Voronoi {
    pub delaunay: Delaunay,
    /// Neighbouring triangles of each triangle.
    pub adjacent: Vec<Vec<usize>>,
    /// Triples (vertex, triangle, triangle) of the fan around each vertex.
    pub voronoi_triangles: Vec<usize>,
    /// Triangles around each vertex, in walking order.
    pub voronoi_points: Vec<Vec<usize>>,
    /// Vertices of each triangle.
    pub voronoi_cells: Vec<Vec<usize>>,
}

/// What the ring walks around all vertices yield.
pub struct Adjacencies {
    pub adjacent: Vec<Vec<usize>>,
    pub voronoi_triangles: Vec<usize>,
    pub voronoi_points: Vec<Vec<usize>>,
    pub voronoi_cells: Vec<Vec<usize>>,
}

/// Incident edges as `Voronoi::get_inedges` gives them.
pub open spec fn valid_inedges(tri: Seq<usize>, inedges: Seq<usize>) -> bool {
    forall|p: int|
        0 <= p < inedges.len() && #[trigger] inedges[p] != EMPTY ==> inedges[p] < tri.len()
            && tri[next_edge(inedges[p] as int)] == p
}

/// The adjacency, rings and incidence that walking every vertex ring yields.
pub open spec fn adjacencies_of(
    tri: Seq<usize>,
    he: Seq<usize>,
    inedges: Seq<usize>,
    a: Adjacencies,
) -> bool {
    let n = inedges.len();
    let nt = tri.len() / 3;
    &&& a.voronoi_points@.len() == n
    &&& a.voronoi_cells@.len() == nt
    &&& a.adjacent@.len() == nt
    &&& forall|x: int|
        0 <= x < n ==> (#[trigger] a.voronoi_points@[x])@ == vertex_ring(
            tri,
            he,
            x,
            inedges[x] as int,
        )
    &&& forall|t: int, x: usize|
        0 <= t < nt ==> (#[trigger] a.voronoi_cells@[t]@.contains(x) <==> (x < n
            && a.voronoi_points@[x as int]@.contains(t as usize)))
    &&& forall|t: int, u: usize|
        0 <= t < nt ==> (#[trigger] a.adjacent@[t]@.contains(u) <==> linked(
            a.voronoi_points@,
            t as usize,
            u,
        ))
    &&& forall|t: int| 0 <= t < nt ==> all_below((#[trigger] a.adjacent@[t])@, nt as int)
    &&& forall|t: int| 0 <= t < nt ==> distinct((#[trigger] a.adjacent@[t])@)
    &&& symmetric(a.adjacent@)
    &&& a.voronoi_triangles@ == all_fans(tri, he, inedges, n as int)
}

fn empty_rows(n: usize) -> (r: Vec<Vec<usize>>)
    ensures
        r@.len() == n,
        forall|k: int| 0 <= k < n ==> (#[trigger] r@[k])@ == Seq::<usize>::empty(),
{
    let mut r: Vec<Vec<usize>> = Vec::new();
    let mut k: usize = 0;
    while k < n
        invariant
            k <= n,
            r@.len() == k,
            forall|j: int| 0 <= j < k ==> (#[trigger] r@[j])@ == Seq::<usize>::empty(),
        decreases n - k,
    {
        r.push(Vec::new());
        k = k + 1;
    }
    r
}

impl Voronoi {
    /// For each of `n_points` vertices, a half-edge ending in it: the last hull
    /// edge into it when there is one (so that ring walks start on the hull), else
    /// the first edge into it; EMPTY where none ends in it.
    pub fn get_inedges(n_points: usize, halfedges: &Vec<usize>, triangles: &Vec<usize>) -> (r: Vec<
        usize,
    >)
        requires
            mesh_arrays(triangles@, halfedges@, n_points as int),
        ensures
            r@.len() == n_points,
            forall|p: int|
                0 <= p < n_points ==> #[trigger] r@[p] == inedge_upto(
                    triangles@,
                    halfedges@,
                    p,
                    triangles@.len() as int,
                ),
            valid_inedges(triangles@, r@),
    {
        let mut inedges: Vec<usize> = vec![EMPTY; n_points];
        let len = halfedges.len();
        let mut e: usize = 0;
        while e < len
            invariant
                e <= len == triangles@.len(),
                mesh_arrays(triangles@, halfedges@, n_points as int),
                inedges@.len() == n_points,
                forall|p: int|
                    0 <= p < n_points ==> #[trigger] inedges@[p] == inedge_upto(
                        triangles@,
                        halfedges@,
                        p,
                        e as int,
                    ),
            decreases len - e,
        {
            let p = triangles[next_halfedge(e)];
            if halfedges[e] == EMPTY || inedges[p] == EMPTY {
                inedges.set(p, e);
            }
            e = e + 1;
        }
        proof {
            assert forall|p: int| 0 <= p < inedges@.len() && #[trigger] inedges@[p] != EMPTY implies inedges@[p]
                < triangles@.len() && triangles@[next_edge(inedges@[p] as int)] == p by {
                lemma_inedge_ends_at(triangles@, halfedges@, p, len as int);
            }
        }
        inedges
    }
}

/// The state of the ring walks: incidence and adjacency agree with the rings
/// walked so far.
pub open spec fn walk_state(
    n: int,
    nt: int,
    adj: Seq<Vec<usize>>,
    cells: Seq<Vec<usize>>,
    points: Seq<Vec<usize>>,
) -> bool {
    &&& adj.len() == nt
    &&& cells.len() == nt
    &&& points.len() == n
    &&& nt <= EMPTY
    &&& n <= EMPTY
    &&& forall|t: int, x: usize|
        0 <= t < nt ==> (#[trigger] cells[t]@.contains(x) <==> (x < n && points[x as int]@.contains(
            t as usize,
        )))
    &&& forall|t: int, u: usize|
        0 <= t < nt ==> (#[trigger] adj[t]@.contains(u) <==> linked(points, t as usize, u))
    &&& forall|t: int| 0 <= t < nt ==> all_below((#[trigger] adj[t])@, nt)
    &&& forall|t: int| 0 <= t < nt ==> distinct((#[trigger] adj[t])@)
    &&& forall|x: int| 0 <= x < n ==> all_below((#[trigger] points[x])@, nt)
}

proof fn lemma_push_distinct(s: Seq<usize>, v: usize)
    requires
        distinct(s),
        !s.contains(v),
    ensures
        distinct(s.push(v)),
{
    assert forall|a: int, b: int| 0 <= a < s.len() + 1 && 0 <= b < s.len() + 1 && a != b implies s.push(v)[a]
        != s.push(v)[b] by {
        if a == s.len() {
            assert(s.push(v)[b] == s[b]);
        } else if b == s.len() {
            assert(s.push(v)[a] == s[a]);
        }
    }
}

/// Records that triangles `a` and `b` are adjacent, each in the other's list.
fn link(adjacent: &mut Vec<Vec<usize>>, a: usize, b: usize)
    requires
        a < old(adjacent)@.len(),
        b < old(adjacent)@.len(),
    ensures
        final(adjacent)@.len() == old(adjacent)@.len(),
        forall|t: int, u: usize|
            0 <= t < old(adjacent)@.len() ==> (#[trigger] final(adjacent)@[t]@.contains(u) <==> (
            old(adjacent)@[t]@.contains(u) || (t == a && u == b) || (t == b && u == a))),
        forall|t: int|
            0 <= t < old(adjacent)@.len() && all_below(old(adjacent)@[t]@, old(adjacent)@.len() as int)
                ==> all_below((#[trigger] final(adjacent)@[t])@, old(adjacent)@.len() as int),
        forall|t: int|
            0 <= t < old(adjacent)@.len() && distinct(old(adjacent)@[t]@) ==> distinct(
                (#[trigger] final(adjacent)@[t])@,
            ),
{
    let ghost a0 = adjacent@;
    if !holds(&adjacent[a], b) {
        adjacent[a].push(b);
        proof {
            if distinct(a0[a as int]@) {
                lemma_push_distinct(a0[a as int]@, b);
            }
        }
    }
    let ghost a1 = adjacent@;
    proof {
        assert forall|t: int| 0 <= t < a0.len() && distinct(a0[t]@) implies distinct(#[trigger] a1[t]@) by {
            if t != a {
                assert(a1[t] == a0[t]);
            }
        }
        lemma_push_contains(a0[a as int]@, b);
        assert forall|t: int, u: usize| 0 <= t < a0.len() implies (#[trigger] a1[t]@.contains(u) <==> (
            a0[t]@.contains(u) || (t == a && u == b))) by {
            if t != a {
                assert(a1[t] == a0[t]);
            }
        }
    }
    if !holds(&adjacent[b], a) {
        adjacent[b].push(a);
        proof {
            if distinct(a1[b as int]@) {
                lemma_push_distinct(a1[b as int]@, a);
            }
        }
    }
    proof {
        assert forall|t: int| 0 <= t < a0.len() && distinct(a0[t]@) implies distinct(
            (#[trigger] adjacent@[t])@,
        ) by {
            assert(distinct(a1[t]@));
            if t != b {
                assert(adjacent@[t] == a1[t]);
            }
        }
        lemma_push_contains(a1[b as int]@, a);
        assert forall|t: int, u: usize| 0 <= t < a0.len() implies (#[trigger] adjacent@[t]@.contains(u) <==> (
            a1[t]@.contains(u) || (t == b && u == a))) by {
            if t != b {
                assert(adjacent@[t] == a1[t]);
            }
        }
        assert forall|t: int|
            0 <= t < a0.len() && all_below(a0[t]@, a0.len() as int)
                implies all_below((#[trigger] adjacent@[t])@, a0.len() as int) by {
            assert forall|k: int| 0 <= k < adjacent@[t]@.len() implies #[trigger] adjacent@[t]@[k] < a0.len() by {
                assert(adjacent@[t]@.contains(adjacent@[t]@[k]));
                if a0[t]@.contains(adjacent@[t]@[k]) {
                    let j = choose|j: int| 0 <= j < a0[t]@.len() && a0[t]@[j] == adjacent@[t]@[k];
                    assert(a0[t]@[j] < a0.len());
                }
            }
        }
    }
}

/// One step of the walk around vertex `i`: triangle `t` joins its ring and, when the
/// ring already holds a triangle, becomes adjacent to the last one.
fn visit(
    adjacent: &mut Vec<Vec<usize>>,
    cells: &mut Vec<Vec<usize>>,
    points: &mut Vec<Vec<usize>>,
    i: usize,
    t: usize,
    prev_t: usize,
)
    requires
        walk_state(
            old(points)@.len() as int,
            old(adjacent)@.len() as int,
            old(adjacent)@,
            old(cells)@,
            old(points)@,
        ),
        i < old(points)@.len(),
        t < old(adjacent)@.len(),
        prev_t == EMPTY <==> old(points)@[i as int]@.len() == 0,
        prev_t != EMPTY ==> prev_t == old(points)@[i as int]@.last(),
    ensures
        walk_state(
            old(points)@.len() as int,
            old(adjacent)@.len() as int,
            final(adjacent)@,
            final(cells)@,
            final(points)@,
        ),
        final(points)@.len() == old(points)@.len(),
        final(points)@[i as int]@ == old(points)@[i as int]@.push(t),
        forall|x: int|
            0 <= x < old(points)@.len() && x != i ==> #[trigger] final(points)@[x] == old(points)@[x],
{
    let ghost n = points@.len() as int;
    let ghost nt = adjacent@.len() as int;
    let ghost pts0 = points@;
    let ghost c0 = cells@;
    let ghost a0 = adjacent@;
    cells[t].push(i);
    points[i].push(t);
    proof {
        lemma_push_contains(c0[t as int]@, i);
        lemma_push_contains(pts0[i as int]@, t);
        assert forall|t2: int, x: usize| 0 <= t2 < nt implies (#[trigger] cells@[t2]@.contains(x) <==> (x
            < n && points@[x as int]@.contains(t2 as usize))) by {
            assert(c0[t2]@.contains(x) <==> (x < n && pts0[x as int]@.contains(t2 as usize)));
            if t2 != t {
                assert(cells@[t2] == c0[t2]);
            } else {
                assert(cells@[t2]@ == c0[t2]@.push(i));
            }
            if x != i && x < n {
                assert(points@[x as int] == pts0[x as int]);
            }
        }
        assert forall|x: int| 0 <= x < n implies all_below((#[trigger] points@[x])@, nt) by {
            if x == i {
                assert forall|k: int| 0 <= k < points@[x]@.len() implies #[trigger] points@[x]@[k] < nt by {
                    if k < pts0[x]@.len() {
                        assert(points@[x]@[k] == pts0[x]@[k]);
                    }
                }
            } else {
                assert(points@[x] == pts0[x]);
            }
        }
        lemma_linked_push(pts0, points@, i as int, t);
    }
    if prev_t != EMPTY {
        proof {
            assert(pts0[i as int]@.contains(prev_t));
            assert(all_below(pts0[i as int]@, nt));
        }
        link(adjacent, t, prev_t);
        proof {
            assert forall|t2: int, u: usize| 0 <= t2 < nt implies (#[trigger] adjacent@[t2]@.contains(u)
                <==> linked(points@, t2 as usize, u)) by {
                assert(a0[t2]@.contains(u) <==> linked(pts0, t2 as usize, u));
                assert(linked(points@, t2 as usize, u) <==> linked(pts0, t2 as usize, u) || ((
                    prev_t == t2 && t == u) || (prev_t == u && t == t2)));
            }
        }
    } else {
        proof {
            assert forall|t2: int, u: usize| 0 <= t2 < nt implies (#[trigger] adjacent@[t2]@.contains(u)
                <==> linked(points@, t2 as usize, u)) by {
                assert(a0[t2]@.contains(u) <==> linked(pts0, t2 as usize, u));
                assert(linked(points@, t2 as usize, u) <==> linked(pts0, t2 as usize, u));
                assert(adjacent@[t2] == a0[t2]);
            }
        }
    }
}

impl Voronoi {
    /// Walks the ring of triangles around every vertex, from its incident edge,
    /// and derives which triangles are adjacent, which triangles surround each
    /// vertex and which vertices each triangle has. A vertex without an incident
    /// edge coincides with another point, and is refused.
    pub fn get_adjacencies(inedges: &Vec<usize>, halfedges: &Vec<usize>, triangles: &Vec<usize>) -> (r:
        Result<Adjacencies, MeshError>)
        requires
            mesh_arrays(triangles@, halfedges@, inedges@.len() as int),
            valid_inedges(triangles@, inedges@),
        ensures
            r is Err <==> exists|p: int| 0 <= p < inedges@.len() && inedges@[p] == EMPTY,
            r is Err ==> r->Err_0 == MeshError::CoincidentPoint,
            r is Ok ==> adjacencies_of(triangles@, halfedges@, inedges@, r->Ok_0),
    {
        let n = inedges.len();
        let len = triangles.len();
        let nt = len / 3;
        let mut adjacent = empty_rows(nt);
        let mut voronoi_triangles: Vec<usize> = Vec::new();
        let mut voronoi_points = empty_rows(n);
        let mut voronoi_cells = empty_rows(nt);
        proof {
            assert forall|t: int, u: usize| 0 <= t < nt implies (#[trigger] adjacent@[t]@.contains(u)
                <==> linked(voronoi_points@, t as usize, u)) by {
                if linked(voronoi_points@, t as usize, u) {
                    let x = choose|x: int|
                        0 <= x < voronoi_points@.len() && #[trigger] joins(
                            voronoi_points@[x]@,
                            t as usize,
                            u,
                        );
                    assert(voronoi_points@[x]@.len() == 0);
                }
            }
        }
        let mut i: usize = 0;
        while i < n
            invariant
                i <= n == inedges@.len(),
                len == triangles@.len(),
                nt == len / 3,
                mesh_arrays(triangles@, halfedges@, n as int),
                valid_inedges(triangles@, inedges@),
                forall|p: int| 0 <= p < i ==> inedges@[p] != EMPTY,
                walk_state(n as int, nt as int, adjacent@, voronoi_cells@, voronoi_points@),
                forall|x: int|
                    0 <= x < i ==> (#[trigger] voronoi_points@[x])@ == vertex_ring(
                        triangles@,
                        halfedges@,
                        x,
                        inedges@[x] as int,
                    ),
                forall|x: int| i <= x < n ==> (#[trigger] voronoi_points@[x])@.len() == 0,
                voronoi_triangles@ == all_fans(triangles@, halfedges@, inedges@, i as int),
            decreases n - i,
        {
            let e0 = inedges[i];
            if e0 == EMPTY {
                return Err(MeshError::CoincidentPoint);
            }
            let mut e = e0;
            let mut prev_t: usize = EMPTY;
            let mut steps: usize = 0;
            let mut close: usize;
            loop
                invariant_except_break
                    voronoi_points@[i as int]@ + ring(
                        triangles@,
                        halfedges@,
                        i as int,
                        e0 as int,
                        e as int,
                        (len - steps) as nat,
                    ) == vertex_ring(triangles@, halfedges@, i as int, e0 as int),
                    e < len,
                    steps <= len,
                    ring_end(triangles@, halfedges@, i as int, e0 as int, e as int, (len - steps) as nat)
                        == ring_end(triangles@, halfedges@, i as int, e0 as int, e0 as int, len as nat),
                invariant
                    i < n == inedges@.len(),
                    len == triangles@.len(),
                    nt == len / 3,
                    e0 == inedges@[i as int],
                    e0 < len,
                    mesh_arrays(triangles@, halfedges@, n as int),
                    walk_state(n as int, nt as int, adjacent@, voronoi_cells@, voronoi_points@),
                    forall|x: int|
                        0 <= x < i ==> (#[trigger] voronoi_points@[x])@ == vertex_ring(
                            triangles@,
                            halfedges@,
                            x,
                            inedges@[x] as int,
                        ),
                    forall|x: int| i < x < n ==> (#[trigger] voronoi_points@[x])@.len() == 0,
                    prev_t == EMPTY <==> voronoi_points@[i as int]@.len() == 0,
                    prev_t != EMPTY ==> prev_t == voronoi_points@[i as int]@.last(),
                    voronoi_triangles@ == all_fans(triangles@, halfedges@, inedges@, i as int) + fan_pairs(
                        i,
                        voronoi_points@[i as int]@,
                        voronoi_points@[i as int]@.len() as int,
                    ),
                ensures
                    voronoi_points@[i as int]@ == vertex_ring(triangles@, halfedges@, i as int, e0 as int),
                    close == ring_end(triangles@, halfedges@, i as int, e0 as int, e0 as int, len as nat),
                decreases len - steps,
            {
                let t = e / 3;
                let ghost before = voronoi_points@[i as int]@;
                let ghost old_e = e;
                let ghost vt0 = voronoi_triangles@;
                visit(&mut adjacent, &mut voronoi_cells, &mut voronoi_points, i, t, prev_t);
                proof {
                    lemma_fan_prefix(i, before, t, before.len() as int);
                }
                if prev_t != EMPTY {
                    voronoi_triangles.push(i);
                    voronoi_triangles.push(t);
                    voronoi_triangles.push(prev_t);
                    proof {
                        let r = voronoi_points@[i as int]@;
                        assert(r[r.len() - 1] == t);
                        assert(r[r.len() - 2] == prev_t);
                        assert(voronoi_triangles@ =~= all_fans(triangles@, halfedges@, inedges@, i as int)
                            + fan_pairs(i, r, r.len() as int));
                    }
                }
                prev_t = t;
                let nx = next_halfedge(e);
                if triangles[nx] != i {
                    close = nx;
                    break;
                }
                let h = halfedges[nx];
                if h == EMPTY || h == e0 || steps == len {
                    close = h;
                    break;
                }
                e = h;
                steps = steps + 1;
                proof {
                    assert(before.push(t) + ring(triangles@, halfedges@, i as int, e0 as int, e as int, (len - steps) as nat)
                        =~= before + ring(triangles@, halfedges@, i as int, e0 as int, old_e as int, (len - steps + 1) as nat));
                }
            }
            let ghost vt0 = voronoi_triangles@;
            if close == e0 {
                voronoi_triangles.push(i);
                voronoi_triangles.push(e0 / 3);
                voronoi_triangles.push(prev_t);
            }
            proof {
                assert(voronoi_triangles@ =~= all_fans(triangles@, halfedges@, inedges@, i + 1));
            }
            i = i + 1;
        }
        proof {
            assert forall|a: int, b: int|
                0 <= a < nt && 0 <= b < nt implies (adjacent@[a]@.contains(b as usize)
                <==> adjacent@[b]@.contains(a as usize)) by {
                lemma_linked_symmetric(voronoi_points@, a as usize, b as usize);
            }
        }
        Ok(
            Adjacencies {
                adjacent,
                voronoi_triangles,
                voronoi_points,
                voronoi_cells,
            },
        )
    }
}

/// The vertices met walking around a vertex from half-edge `e` on (the walk started
/// at `e0` and may take `fuel` more steps): the origin of each edge, until the hull,
/// the start, or the end of the fuel.
pub open spec fn spokes(tri: Seq<usize>, he: Seq<usize>, e0: int, e: int, fuel: nat) -> Seq<usize>
    decreases fuel,
{
    let h = he[next_edge(e)];
    if fuel == 0 || h == EMPTY || h == e0 {
        seq![tri[e]]
    } else {
        seq![tri[e]] + spokes(tri, he, e0, h as int, (fuel - 1) as nat)
    }
}

/// Whether the walk of `spokes` ends on the hull.
pub open spec fn spokes_reach_hull(tri: Seq<usize>, he: Seq<usize>, e0: int, e: int, fuel: nat) -> bool
    decreases fuel,
{
    let h = he[next_edge(e)];
    if h == EMPTY {
        true
    } else if fuel == 0 || h == e0 {
        false
    } else {
        spokes_reach_hull(tri, he, e0, h as int, (fuel - 1) as nat)
    }
}

/// The position of vertex `v` on the hull: its last one among the first `m`
/// entries, or EMPTY.
pub open spec fn hull_position(hull: Seq<usize>, v: usize, m: int) -> usize
    decreases m,
{
    if m <= 0 {
        EMPTY
    } else if hull[m - 1] == v {
        (m - 1) as usize
    } else {
        hull_position(hull, v, m - 1)
    }
}

/// The neighbouring vertices of vertex `i`: the origins of the edges around it,
/// and, where the walk ends on the hull, the next hull vertex when it differs from
/// the last one met.
pub open spec fn neighbors_of(tri: Seq<usize>, he: Seq<usize>, hull: Seq<usize>, i: int, e0: int) -> Seq<
    usize,
> {
    let walk = spokes(tri, he, e0, e0, he.len());
    let k = hull_position(hull, i as usize, hull.len() as int);
    if spokes_reach_hull(tri, he, e0, e0, he.len()) && k != EMPTY && hull[(k + 1) % hull.len() as int]
        != walk.last() {
        walk.push(hull[(k + 1) % hull.len() as int])
    } else {
        walk
    }
}

proof fn lemma_hull_position(hull: Seq<usize>, v: usize, m: int)
    requires
        0 <= m <= hull.len(),
        hull.len() <= EMPTY,
    ensures
        hull_position(hull, v, m) == EMPTY || (hull_position(hull, v, m) < m && hull[hull_position(
            hull,
            v,
            m,
        ) as int] == v),
    decreases m,
{
    if m > 0 {
        lemma_hull_position(hull, v, m - 1);
    }
}

impl Voronoi {
    /// The neighbouring vertices of every vertex, walking around it from its
    /// incident edge.
    pub fn get_neighbors(
        n_points: usize,
        inedges: &Vec<usize>,
        hull: &Vec<usize>,
        halfedges: &Vec<usize>,
        triangles: &Vec<usize>,
    ) -> (r: Vec<Vec<usize>>)
        requires
            inedges@.len() == n_points,
            mesh_arrays(triangles@, halfedges@, n_points as int),
            all_below(hull@, n_points as int),
            forall|p: int| 0 <= p < n_points ==> #[trigger] inedges@[p] < triangles@.len(),
        ensures
            r@.len() == n_points,
            forall|i: int|
                0 <= i < n_points ==> (#[trigger] r@[i])@ == neighbors_of(
                    triangles@,
                    halfedges@,
                    hull@,
                    i,
                    inedges@[i] as int,
                ),
            forall|i: int| 0 <= i < n_points ==> all_below((#[trigger] r@[i])@, n_points as int),
    {
        let len = halfedges.len();
        let mut neighbors: Vec<Vec<usize>> = Vec::new();
        let mut hull_index: Vec<usize> = vec![EMPTY; n_points];
        let mut k: usize = 0;
        while k < hull.len()
            invariant
                k <= hull@.len(),
                all_below(hull@, n_points as int),
                hull_index@.len() == n_points,
                forall|v: int| 0 <= v < n_points ==> #[trigger] hull_index@[v] == hull_position(hull@, v as usize, k as int),
            decreases hull.len() - k,
        {
            hull_index.set(hull[k], k);
            k = k + 1;
        }
        let mut i: usize = 0;
        while i < n_points
            invariant
                i <= n_points == inedges@.len(),
                len == halfedges@.len(),
                mesh_arrays(triangles@, halfedges@, n_points as int),
                all_below(hull@, n_points as int),
                forall|p: int| 0 <= p < n_points ==> #[trigger] inedges@[p] < triangles@.len(),
                hull_index@.len() == n_points,
                forall|v: int| 0 <= v < n_points ==> #[trigger] hull_index@[v] == hull_position(hull@, v as usize, hull@.len() as int),
                neighbors@.len() == i,
                forall|x: int|
                    0 <= x < i ==> (#[trigger] neighbors@[x])@ == neighbors_of(
                        triangles@,
                        halfedges@,
                        hull@,
                        x,
                        inedges@[x] as int,
                    ),
                forall|x: int| 0 <= x < i ==> all_below((#[trigger] neighbors@[x])@, n_points as int),
            decreases n_points - i,
        {
            let e0 = inedges[i];
            let mut e = e0;
            let mut steps: usize = 0;
            let mut row: Vec<usize> = Vec::new();
            let mut on_hull: bool;
            loop
                invariant_except_break
                    row@ + spokes(triangles@, halfedges@, e0 as int, e as int, (len - steps) as nat)
                        == spokes(triangles@, halfedges@, e0 as int, e0 as int, len as nat),
                    spokes_reach_hull(triangles@, halfedges@, e0 as int, e as int, (len - steps) as nat)
                        == spokes_reach_hull(triangles@, halfedges@, e0 as int, e0 as int, len as nat),
                    e < len,
                    steps <= len,
                invariant
                    len == halfedges@.len(),
                    e0 < len,
                    mesh_arrays(triangles@, halfedges@, n_points as int),
                    all_below(row@, n_points as int),
                ensures
                    row@ == spokes(triangles@, halfedges@, e0 as int, e0 as int, len as nat),
                    on_hull == spokes_reach_hull(triangles@, halfedges@, e0 as int, e0 as int, len as nat),
                    row@.len() > 0,
                decreases len - steps,
            {
                let ghost before = row@;
                let ghost old_e = e;
                let origin = triangles[e];
                row.push(origin);
                let h = halfedges[next_halfedge(e)];
                if h == EMPTY {
                    on_hull = true;
                    break;
                }
                if h == e0 || steps == len {
                    on_hull = false;
                    break;
                }
                e = h;
                steps = steps + 1;
                proof {
                    assert(before.push(origin) + spokes(triangles@, halfedges@, e0 as int, e as int, (len - steps) as nat)
                        =~= before + spokes(triangles@, halfedges@, e0 as int, old_e as int, (len - steps + 1) as nat));
                }
                assert(all_below(row@, n_points as int)) by {
                    assert forall|j: int| 0 <= j < row@.len() implies #[trigger] row@[j] < n_points by {
                        if j < before.len() {
                            assert(row@[j] == before[j]);
                        }
                    }
                }
            }
            if on_hull {
                let k = hull_index[i];
                let hull_len = hull.len();
                proof {
                    lemma_hull_position(hull@, i, hull@.len() as int);
                }
                if k != EMPTY {
                    let p = hull[(k + 1) % hull_len];
                    if p != row[row.len() - 1] {
                        let ghost before = row@;
                        row.push(p);
                        assert(all_below(row@, n_points as int)) by {
                            assert forall|j: int| 0 <= j < row@.len() implies #[trigger] row@[j] < n_points by {
                                if j < before.len() {
                                    assert(row@[j] == before[j]);
                                }
                            }
                        }
                    }
                }
            }
            neighbors.push(row);
            i = i + 1;
        }
        neighbors
    }
}

impl Voronoi {
    /// Well-formed: the arrays describe a triangulation, and everything else is
    /// what walking its vertex rings yields.
    pub open spec fn wf(&self) -> bool {
        let d = self.delaunay;
        let n = d.inedges@.len();
        &&& n >= 3
        &&& mesh_arrays(d.triangles@, d.halfedges@, n as int)
        &&& all_below(d.hull@, n as int)
        &&& valid_inedges(d.triangles@, d.inedges@)
        &&& forall|p: int| 0 <= p < n ==> #[trigger] d.inedges@[p] != EMPTY
        &&& d.neighbors@.len() == n
        &&& forall|i: int|
            0 <= i < n ==> (#[trigger] d.neighbors@[i])@ == neighbors_of(
                d.triangles@,
                d.halfedges@,
                d.hull@,
                i,
                d.inedges@[i] as int,
            )
        &&& adjacencies_of(
            d.triangles@,
            d.halfedges@,
            d.inedges@,
            Adjacencies {
                adjacent: self.adjacent,
                voronoi_triangles: self.voronoi_triangles,
                voronoi_points: self.voronoi_points,
                voronoi_cells: self.voronoi_cells,
            },
        )
    }

    /// Builds the mesh of `n_points` points from their triangulation: triangles as
    /// vertex triples, the opposite of each half-edge (EMPTY on the hull), and the
    /// hull. Fails on fewer than three points, on arrays that do not describe a
    /// triangulation, on no triangle at all (collinear points), and on a point that
    /// no triangle reaches (a coincident point).
    pub fn new(n_points: usize, triangles: Vec<usize>, halfedges: Vec<usize>, hull: Vec<usize>) -> (r:
        Result<Voronoi, MeshError>)
        ensures
            r == Err::<Voronoi, MeshError>(MeshError::TooFewPoints) <==> n_points < 3,
            r == Err::<Voronoi, MeshError>(MeshError::InvalidTriangulation) <==> n_points >= 3 && !(
            mesh_arrays(triangles@, halfedges@, n_points as int) && all_below(hull@, n_points as int)),
            r == Err::<Voronoi, MeshError>(MeshError::Collinear) <==> n_points >= 3 && mesh_arrays(
                triangles@,
                halfedges@,
                n_points as int,
            ) && all_below(hull@, n_points as int) && triangles@.len() == 0,
            r == Err::<Voronoi, MeshError>(MeshError::CoincidentPoint) <==> n_points >= 3 && mesh_arrays(
                triangles@,
                halfedges@,
                n_points as int,
            ) && all_below(hull@, n_points as int) && triangles@.len() > 0 && exists|p: int|
                0 <= p < n_points && inedge_upto(triangles@, halfedges@, p, triangles@.len() as int)
                    == EMPTY,
            r is Ok ==> {
                let v = r->Ok_0;
                &&& v.wf()
                &&& v.delaunay.inedges@.len() == n_points
                &&& v.delaunay.triangles@ == triangles@
                &&& v.delaunay.halfedges@ == halfedges@
                &&& v.delaunay.hull@ == hull@
                &&& forall|p: int|
                    0 <= p < n_points ==> #[trigger] v.delaunay.inedges@[p] == inedge_upto(
                        triangles@,
                        halfedges@,
                        p,
                        triangles@.len() as int,
                    )
            },
    {
        let mesh = match Triangulation::new(n_points, triangles, halfedges, hull) {
            Ok(mesh) => mesh,
            Err(err) => {
                return Err(err);
            },
        };
        let Triangulation { triangles, halfedges, hull } = mesh;
        if triangles.len() == 0 {
            return Err(MeshError::Collinear);
        }
        let inedges = Voronoi::get_inedges(n_points, &halfedges, &triangles);
        let found = Voronoi::get_adjacencies(&inedges, &halfedges, &triangles);
        let Adjacencies { adjacent, voronoi_triangles, voronoi_points, voronoi_cells } = match found {
            Ok(a) => a,
            Err(err) => {
                return Err(err);
            },
        };
        proof {
            assert forall|p: int| 0 <= p < n_points implies inedge_upto(
                triangles@,
                halfedges@,
                p,
                triangles@.len() as int,
            ) != EMPTY by {
                assert(inedges@[p] != EMPTY);
            }
        }
        let neighbors = Voronoi::get_neighbors(n_points, &inedges, &hull, &halfedges, &triangles);
        let delaunay = Delaunay { hull, inedges, halfedges, triangles, neighbors };
        Ok(Voronoi { delaunay, adjacent, voronoi_triangles, voronoi_points, voronoi_cells })
    }
}

/// Opposite half-edges pair up: the opposite of the opposite of a half-edge is
/// the half-edge itself, wherever both are defined; the two lie in different
/// triangles and join the same two vertices.
pub proof fn lemma_halfedges_involution(v: &Voronoi, e: int)
    requires
        v.wf(),
        0 <= e < v.delaunay.halfedges@.len(),
        v.delaunay.halfedges@[e] != EMPTY,
    ensures
        v.delaunay.halfedges@[e] < v.delaunay.halfedges@.len(),
        v.delaunay.halfedges@[v.delaunay.halfedges@[e] as int] == e,
        v.delaunay.halfedges@[e] / 3 != e / 3,
        v.delaunay.halfedges@[e] != e,
        v.delaunay.triangles@[v.delaunay.halfedges@[e] as int] == v.delaunay.triangles@[next_edge(e)],
        v.delaunay.triangles@[next_edge(v.delaunay.halfedges@[e] as int)] == v.delaunay.triangles@[e],
{
}

/// Voronoi adjacency is symmetric: `b` is adjacent to `a` exactly when `a` is
/// adjacent to `b`.
pub proof fn lemma_adjacency_symmetric(v: &Voronoi, a: int, b: int)
    requires
        v.wf(),
        0 <= a < v.adjacent@.len(),
        0 <= b < v.adjacent@.len(),
    ensures
        v.adjacent@[a]@.contains(b as usize) <==> v.adjacent@[b]@.contains(a as usize),
{
}

} // verus!
