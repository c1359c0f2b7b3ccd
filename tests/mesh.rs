use terrain_generator::mesh::{MeshError, Triangulation, Voronoi, EMPTY};
use terrain_generator::poisson::neighbor_cells;
use terrain_generator::coasts::get_coast_lines;
use terrain_generator::erosion::{fill_sinks, get_flux};
use terrain_generator::rivers::get_rivers;

fn square() -> Voronoi {
    // Unit square 0 (0,0), 1 (1,0), 2 (1,1), 3 (0,1), split along 0-2.
    let triangles = vec![0, 1, 2, 0, 2, 3];
    let halfedges = vec![EMPTY, EMPTY, 3, 2, EMPTY, EMPTY];
    let hull = vec![0, 1, 2, 3];
    match Voronoi::new(4, triangles, halfedges, hull) {
        Ok(v) => v,
        Err(e) => panic!("square mesh refused: {:?}", e),
    }
}

#[test]
fn square_inedges_prefer_hull_edges() {
    let v = square();
    assert_eq!(v.delaunay.inedges, vec![5, 0, 1, 4]);
}

#[test]
fn square_vertex_rings_and_cells() {
    let v = square();
    assert_eq!(v.voronoi_points, vec![vec![1, 0], vec![0], vec![0, 1], vec![1]]);
    assert_eq!(v.voronoi_cells, vec![vec![0, 1, 2], vec![0, 2, 3]]);
    // Every vertex of the square is on the hull: no fan closes.
    assert_eq!(v.voronoi_triangles, vec![0, 0, 1, 2, 1, 0]);
}

#[test]
fn square_adjacency_is_symmetric() {
    let v = square();
    assert_eq!(v.adjacent, vec![vec![1], vec![0]]);
    for a in 0..v.adjacent.len() {
        for &b in &v.adjacent[a] {
            assert!(v.adjacent[b].contains(&a));
        }
    }
}

#[test]
fn square_halfedges_pair_up() {
    let v = square();
    let he = &v.delaunay.halfedges;
    for e in 0..he.len() {
        if he[e] != EMPTY {
            assert_eq!(he[he[e]], e);
        }
    }
}

#[test]
fn square_neighbors_close_over_the_hull() {
    let v = square();
    assert_eq!(
        v.delaunay.neighbors,
        vec![vec![3, 2, 1], vec![0, 2], vec![1, 0, 3], vec![2, 0]]
    );
}

#[test]
fn fewer_than_three_points_are_refused() {
    let r = Voronoi::new(2, vec![], vec![], vec![0, 1]);
    assert!(matches!(r, Err(MeshError::TooFewPoints)));
}

#[test]
fn unpaired_halfedge_is_refused() {
    let r = Triangulation::new(4, vec![0, 1, 2, 0, 2, 3], vec![EMPTY, EMPTY, 3, EMPTY, EMPTY, EMPTY], vec![0, 1, 2, 3]);
    assert!(matches!(r, Err(MeshError::InvalidTriangulation)));
}

#[test]
fn halfedge_paired_with_itself_is_refused() {
    let r = Triangulation::new(3, vec![0, 1, 2], vec![0, EMPTY, EMPTY], vec![0, 1, 2]);
    assert!(matches!(r, Err(MeshError::InvalidTriangulation)));
}

#[test]
fn halfedges_joining_other_vertices_are_refused() {
    // Edge 1 (1 -> 2) is paired with edge 3 (0 -> 2), which joins other vertices.
    let r = Triangulation::new(4, vec![0, 1, 2, 0, 2, 3], vec![EMPTY, 3, EMPTY, 1, EMPTY, EMPTY], vec![0, 1, 2, 3]);
    assert!(matches!(r, Err(MeshError::InvalidTriangulation)));
}

#[test]
fn square_adjacency_has_no_duplicates() {
    let v = square();
    for row in &v.adjacent {
        for (a, x) in row.iter().enumerate() {
            assert!(!row[a + 1..].contains(x));
        }
    }
}

#[test]
fn vertex_out_of_range_is_refused() {
    let r = Voronoi::new(3, vec![0, 1, 5], vec![EMPTY, EMPTY, EMPTY], vec![0, 1, 2]);
    assert!(matches!(r, Err(MeshError::InvalidTriangulation)));
}

#[test]
fn point_outside_every_triangle_is_coincident() {
    // Point 3 belongs to no triangle, as a duplicate point would.
    let r = Voronoi::new(4, vec![0, 1, 2], vec![EMPTY, EMPTY, EMPTY], vec![0, 1, 2]);
    assert!(matches!(r, Err(MeshError::CoincidentPoint)));
}

#[test]
fn collinear_points_do_not_crash() {
    // Three collinear points give no triangle at all, which is reported as such
    // rather than panicking.
    let r = Voronoi::new(3, vec![], vec![], vec![0, 1, 2]);
    assert!(matches!(r, Err(MeshError::Collinear)));
}

#[test]
fn single_degenerate_triangle_builds() {
    let v = match Voronoi::new(3, vec![0, 1, 2], vec![EMPTY, EMPTY, EMPTY], vec![0, 1, 2]) {
        Ok(v) => v,
        Err(e) => panic!("refused: {:?}", e),
    };
    assert_eq!(v.voronoi_points, vec![vec![0], vec![0], vec![0]]);
    assert_eq!(v.voronoi_cells, vec![vec![0, 1, 2]]);
    assert_eq!(v.adjacent, vec![Vec::<usize>::new()]);
}

#[test]
fn grid_block_in_a_corner() {
    assert_eq!(neighbor_cells(0, 0, 3, 3), vec![0, 3, 1, 4]);
}

#[test]
fn grid_block_in_the_middle() {
    let mut cells = neighbor_cells(1, 1, 3, 3);
    cells.sort();
    assert_eq!(cells, vec![0, 1, 2, 3, 4, 5, 6, 7, 8]);
}

#[test]
fn grid_block_on_the_far_edge() {
    assert_eq!(neighbor_cells(1, 3, 4, 2), vec![2, 6, 3, 7]);
}

#[test]
fn integer_pipeline_is_reproducible() {
    let run = || {
        let v = square();
        let heights = vec![400_000, -100_000];
        let filled = fill_sinks(&heights, &v.adjacent, 0);
        let flux = get_flux(&filled, &v.adjacent);
        let cell_heights = vec![500_000, 300_000, 200_000, -400_000];
        let rivers = get_rivers(&filled, &v.adjacent, 0, &v.voronoi_cells, &cell_heights);
        let coasts = get_coast_lines(
            &cell_heights,
            &v.delaunay.neighbors,
            &v.voronoi_points,
            &v.voronoi_cells,
            0,
        );
        (filled, flux, rivers, coasts)
    };
    let first = run();
    assert_eq!(first, run());
    assert_eq!(first.0, vec![400_000, -100_000]);
    assert_eq!(first.1, vec![0, 1]);
    assert_eq!(first.2, vec![vec![(1, 1), (0, 0)]]);
    assert!(first.3.is_empty());
}

#[test]
fn interior_vertex_fan_closes() {
    // A square with its centre, point 4, split into four triangles around it.
    let triangles = vec![0, 1, 4, 1, 2, 4, 2, 3, 4, 3, 0, 4];
    let halfedges = vec![EMPTY, 5, 10, EMPTY, 8, 1, EMPTY, 11, 4, EMPTY, 2, 7];
    let v = match Voronoi::new(5, triangles, halfedges, vec![0, 1, 2, 3]) {
        Ok(v) => v,
        Err(e) => panic!("refused: {:?}", e),
    };
    assert_eq!(v.voronoi_points[4], vec![0, 3, 2, 1]);
    let fans = &v.voronoi_triangles;
    assert_eq!(fans[fans.len() - 12..].to_vec(), vec![4, 3, 0, 4, 2, 3, 4, 1, 2, 4, 0, 1]);
    assert!(fans.iter().all(|&t| t < 5));
    let mut around = v.adjacent[0].clone();
    around.sort();
    assert_eq!(around, vec![1, 3]);
}
