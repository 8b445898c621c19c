use geokernel::bo::mesh::{add_point_to_vec, BinaryStlFile, MeshTriangle, RawPoint};

fn p(x: u32, y: u32, z: u32) -> RawPoint {
    RawPoint { x, y, z }
}

fn tri(v1: usize, v2: usize, v3: usize) -> MeshTriangle {
    MeshTriangle { normal: p(0, 0, 0), v1, v2, v3, attr_byte_count: 0, neighbors: Vec::new() }
}

#[test]
fn new_mesh_is_empty() {
    let m = BinaryStlFile::new();
    assert_eq!(m.header.header, [0u8; 80]);
    assert_eq!(m.header.num_triangles, 0);
    assert!(m.triangles.is_empty());
    assert!(m.points.is_empty());
}

#[test]
fn add_point_appends_new_point() {
    let mut points = vec![p(1, 1, 1)];
    let mut t = tri(0, 0, 0);
    let mut ts = vec![tri(0, 0, 0)];
    let i = add_point_to_vec(p(2, 2, 2), None, &mut points, &mut t, &mut ts);
    assert_eq!(i, 1);
    assert_eq!(points, vec![p(1, 1, 1), p(2, 2, 2)]);
    assert!(t.neighbors.is_empty());
    assert!(ts[0].neighbors.is_empty());
}

#[test]
fn add_point_links_triangles_with_found_point() {
    let mut points = vec![p(1, 0, 0), p(2, 0, 0), p(3, 0, 0), p(4, 0, 0)];
    let mut t = tri(0, 0, 0);
    let mut ts = vec![tri(0, 1, 2), tri(1, 2, 3), tri(0, 2, 3)];
    let i = add_point_to_vec(p(1, 0, 0), Some(0), &mut points, &mut t, &mut ts);
    assert_eq!(i, 0);
    assert_eq!(points.len(), 4);
    assert_eq!(t.neighbors, vec![0, 2]);
    assert_eq!(ts[0].neighbors, vec![3]);
    assert!(ts[1].neighbors.is_empty());
    assert_eq!(ts[2].neighbors, vec![3]);
}

#[test]
fn add_triangle_shares_points_and_links_neighbours() {
    let mut m = BinaryStlFile::new();
    m.add_triangle(p(0, 0, 1), [p(0, 0, 0), p(1, 0, 0), p(0, 1, 0)], [None, None, None]);
    assert_eq!(m.points.len(), 3);
    assert_eq!(m.header.num_triangles, 1);
    // second triangle shares the edge (1,0,0)-(0,1,0)
    m.add_triangle(p(0, 0, 1), [p(1, 0, 0), p(1, 1, 0), p(0, 1, 0)], [Some(1), None, Some(2)]);
    assert_eq!(m.points.len(), 4);
    assert_eq!(m.header.num_triangles, 2);
    assert_eq!((m.triangles[1].v1, m.triangles[1].v2, m.triangles[1].v3), (1, 3, 2));
    assert_eq!(m.triangles[0].neighbors, vec![1, 1]);
    assert_eq!(m.triangles[1].neighbors, vec![0, 0]);
    assert_eq!(m.get_triangle(1), (p(1, 0, 0), p(1, 1, 0), p(0, 1, 0)));
    // a third triangle touching only in point 0
    m.add_triangle(p(0, 0, 1), [p(0, 0, 0), p(5, 0, 0), p(5, 5, 0)], [Some(0), None, None]);
    assert_eq!(m.triangles[2].neighbors, vec![0]);
    assert_eq!(m.triangles[0].neighbors, vec![1, 1, 2]);
    assert_eq!(m.triangles[1].neighbors, vec![0, 0]);
    assert_eq!(m.triangles[2].attr_byte_count, 0);
}

#[test]
fn repeated_corner_found_among_new_points() {
    let mut m = BinaryStlFile::new();
    // the third corner equals the first, which was added as a new point
    m.add_triangle(p(0, 0, 0), [p(7, 0, 0), p(8, 0, 0), p(7, 0, 0)], [None, None, Some(0)]);
    assert_eq!(m.points, vec![p(7, 0, 0), p(8, 0, 0)]);
    assert_eq!((m.triangles[0].v1, m.triangles[0].v2, m.triangles[0].v3), (0, 1, 0));
    assert!(m.triangles[0].neighbors.is_empty());
}

#[test]
fn vertex_and_attr_comparison_ignores_neighbours() {
    let mut a = tri(0, 1, 2);
    let b = tri(0, 1, 2);
    a.add_neighbor(5);
    assert!(a.same_vertices_and_attr(&b));
    let c = tri(0, 2, 1);
    assert!(!a.same_vertices_and_attr(&c));
    let mut d = tri(0, 1, 2);
    d.attr_byte_count = 3;
    assert!(!a.same_vertices_and_attr(&d));
    // the normal is not looked at
    let mut e = tri(0, 1, 2);
    e.normal = p(1, 2, 3);
    assert!(a.same_vertices_and_attr(&e));
}
