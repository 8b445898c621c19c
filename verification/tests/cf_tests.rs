use geokernel::bo::mesh::{BinaryStlFile, MeshTriangle, RawPoint};

use geokernel::cf::create;
use geokernel::cf::enumerate::{AfEnumTriangles, RafEnumSimple, TupleIter};
use geokernel::cf::perform_bool_op::{curve_edge, separate, Marker, SeparateError};
use geokernel::cf::triangulate::{classify_normal, inv_point_transform, point_transform, NormalType};
use geokernel::qm::UselessQM;

fn mesh_with(n: usize) -> BinaryStlFile {
    let mut m = BinaryStlFile::new();
    for _ in 0..n {
        m.triangles.push(MeshTriangle {
            normal: RawPoint { x: 0, y: 0, z: 0 },
            v1: 0,
            v2: 0,
            v3: 0,
            attr_byte_count: 0,
            neighbors: Vec::new(),
        });
    }
    m
}

#[test]
fn enumerate_gives_all_pairs_in_order() {
    let a = mesh_with(2);
    let b = mesh_with(3);
    let mut e: RafEnumSimple = create();
    let mut it = e.enumerate(&a, &b);
    let mut got = Vec::new();
    while let Some(pair) = it.next() {
        got.push(pair);
    }
    assert_eq!(got, vec![(0, 0), (0, 1), (0, 2), (1, 0), (1, 1), (1, 2)]);
    assert_eq!(it.next(), None);
}

#[test]
fn enumerate_empty_mesh() {
    let a = mesh_with(0);
    let b = mesh_with(4);
    let mut e: RafEnumSimple<UselessQM> = create();
    let mut it = e.enumerate(&a, &b);
    assert_eq!(it.next(), None);
}

#[test]
fn tuple_iter_walks_its_list() {
    let mut it = TupleIter::new(vec![(3, 4), (5, 6)]);
    assert_eq!(it.next(), Some((3, 4)));
    assert_eq!(it.next(), Some((5, 6)));
    assert_eq!(it.next(), None);
    assert_eq!(it.next(), None);
}

#[test]
fn useless_qm_describes_itself() {
    let q: UselessQM = Default::default();
    assert_eq!(q.describe(), "(UselessQM)");
}

fn chain(n: usize) -> Vec<Vec<usize>> {
    (0..n)
        .map(|i| {
            let mut v = Vec::new();
            if i > 0 {
                v.push(i - 1);
            }
            if i + 1 < n {
                v.push(i + 1);
            }
            v
        })
        .collect()
}

fn no_touch(nbs: &Vec<Vec<usize>>) -> Vec<Vec<bool>> {
    nbs.iter().map(|l| vec![false; l.len()]).collect()
}

#[test]
fn separate_floods_from_seeds() {
    // 0 - 1 - 2 - 3 - 4 - 5, seeds at 0 (inner) and 5 (outer)
    let nbs = chain(6);
    let tcs = no_touch(&nbs);
    let ia = vec![(0, Marker::BoundInner), (5, Marker::BoundOuter)];
    let (inner, outer) = separate(&nbs, &tcs, &ia).unwrap();
    // the first seed floods everything unclassified it reaches
    assert_eq!(inner, vec![0, 1, 2, 3, 4]);
    assert_eq!(outer, vec![5]);
}

#[test]
fn separate_stops_at_seeds() {
    // 0 - 1 - 2 - 3 - 4, seeds at 0 (inner) and 2 (outer): 2 blocks the flood
    let nbs = chain(5);
    let tcs = no_touch(&nbs);
    let ia = vec![(0, Marker::BoundInner), (2, Marker::BoundOuter)];
    let (inner, outer) = separate(&nbs, &tcs, &ia).unwrap();
    assert_eq!(inner, vec![0, 1]);
    assert_eq!(outer, vec![2, 3, 4]);
}

#[test]
fn bound_triangle_takes_side_of_edge_neighbour() {
    // 0 - 1 - 2: 0 is BoundOuter, 1 is Bound and shares an edge with 0
    let nbs = chain(3);
    let tcs = vec![vec![false], vec![true, false], vec![false]];
    let ia = vec![(0, Marker::BoundOuter), (1, Marker::Bound)];
    let (inner, outer) = separate(&nbs, &tcs, &ia).unwrap();
    assert!(inner.is_empty());
    assert_eq!(outer, vec![0, 1, 2]);
}

#[test]
fn bound_triangle_next_to_flood_takes_seed_side() {
    // 0 - 1 - 2, with 2 Bound but not sharing an edge with a sided triangle;
    // the flood from 0 reaches 1, whose neighbour 2 then takes 0's marker
    let nbs = vec![vec![1], vec![0, 2], vec![1]];
    let tcs = no_touch(&nbs);
    let ia = vec![(0, Marker::BoundInner), (2, Marker::Bound)];
    let (inner, outer) = separate(&nbs, &tcs, &ia).unwrap();
    assert_eq!(inner, vec![0, 1, 2]);
    assert!(outer.is_empty());
}

#[test]
fn unsided_seed_is_reported() {
    let nbs = chain(2);
    let tcs = no_touch(&nbs);
    let ia = vec![(0, Marker::Bound)];
    assert_eq!(separate(&nbs, &tcs, &ia), Err(SeparateError::UnsidedSeed));
}

#[test]
fn unreached_triangle_is_reported() {
    // 0 - 1 and an isolated 2
    let nbs = vec![vec![1], vec![0], vec![]];
    let tcs = no_touch(&nbs);
    let ia = vec![(0, Marker::BoundInner)];
    assert_eq!(separate(&nbs, &tcs, &ia), Err(SeparateError::UnsidedTriangle));
}

#[test]
fn normal_types() {
    assert_eq!(classify_normal(false, false, false), NormalType::ABC);
    assert_eq!(classify_normal(false, false, true), NormalType::AB);
    assert_eq!(classify_normal(false, true, false), NormalType::AC);
    assert_eq!(classify_normal(true, false, false), NormalType::BC);
    assert_eq!(classify_normal(false, true, true), NormalType::A);
    assert_eq!(classify_normal(true, false, true), NormalType::B);
    assert_eq!(classify_normal(true, true, false), NormalType::C);
}

#[test]
fn curve_edge_finds_both_ends() {
    // start at vertex 3, end at vertex 1: the third vertex is 2
    assert_eq!(curve_edge([false, false, true], [true, false, false]), Some((3, 1, 2)));
    assert_eq!(curve_edge([true, false, false], [false, true, false]), Some((1, 2, 3)));
    // only one end on the triangle
    assert_eq!(curve_edge([true, false, false], [false, false, false]), None);
    assert_eq!(curve_edge([false, false, false], [false, true, false]), None);
    // a vertex equal to the start is not tried against the end
    assert_eq!(curve_edge([true, false, false], [true, false, false]), None);
    // the later vertex wins
    assert_eq!(curve_edge([true, false, true], [false, true, false]), Some((3, 2, 1)));
}

#[test]
fn points_move_into_the_working_plane_and_back() {
    let p = RawPoint { x: 1, y: 2, z: 3 };
    let cases = [
        (NormalType::AB, RawPoint { x: 3, y: 1, z: 2 }),
        (NormalType::B, RawPoint { x: 3, y: 1, z: 2 }),
        (NormalType::A, RawPoint { x: 2, y: 3, z: 1 }),
        (NormalType::ABC, p),
        (NormalType::AC, p),
        (NormalType::BC, p),
        (NormalType::C, p),
    ];
    for (nt, moved) in cases.iter() {
        let mut q = p;
        point_transform(&mut q, nt);
        assert_eq!(q, *moved);
        assert_eq!(inv_point_transform(&q, nt), p);
    }
}

#[test]
fn raw_point_swaps() {
    let mut p = RawPoint { x: 1, y: 2, z: 3 };
    p.swap_xy();
    assert_eq!(p, RawPoint { x: 2, y: 1, z: 3 });
    p.swap_yz();
    assert_eq!(p, RawPoint { x: 2, y: 3, z: 1 });
    p.swap_xz();
    assert_eq!(p, RawPoint { x: 1, y: 3, z: 2 });
}
