//! Indexed triangle meshes: points stored once, triangles that refer to them
//! by index, and for each triangle the list of its neighbours.

use vstd::prelude::*;
use crate::bo::stl::StlFacet;
use crate::bo::stl::StlData;
use crate::bo::stl::writable;

verus! {

/// A point or a vector, held as the IEEE-754 bit patterns of its three `f32`
/// coordinates.
#[derive(Clone, Copy, PartialEq, Eq, Structural, Debug)]
pub struct RawPoint {
    pub x: u32,
    pub y: u32,
    pub z: u32,
}

impl RawPoint {
    /// Exchanges the x and y coordinates.
    pub fn swap_xy(&mut self)
        ensures
            *final(self) == (RawPoint { x: old(self).y, y: old(self).x, z: old(self).z }),
    {
        let temp = self.x;
        self.x = self.y;
        self.y = temp;
    }

    /// Exchanges the y and z coordinates.
    pub fn swap_yz(&mut self)
        ensures
            *final(self) == (RawPoint { x: old(self).x, y: old(self).z, z: old(self).y }),
    {
        let temp = self.y;
        self.y = self.z;
        self.z = temp;
    }

    /// Exchanges the x and z coordinates.
    pub fn swap_xz(&mut self)
        ensures
            *final(self) == (RawPoint { x: old(self).z, y: old(self).y, z: old(self).x }),
    {
        let temp = self.x;
        self.x = self.z;
        self.z = temp;
    }
}

/// The fixed part of a binary STL file: 80 free bytes and the number of
/// triangles.
#[derive(Clone, Copy)]
pub struct BinaryStlHeader {
    pub header: [u8; 80],
    pub num_triangles: u32,
}

/// A triangle of a mesh: its normal, the indices of its three vertices in
/// the mesh's point list, the STL attribute byte count, and the indices of the
/// triangles that share a vertex with it.
pub struct MeshTriangle {
    pub normal: RawPoint,
    pub v1: usize,
    pub v2: usize,
    pub v3: usize,
    pub attr_byte_count: u16,
    pub neighbors: Vec<usize>,
}

/// A triangle mesh in the shape of a binary STL file, with each point stored
/// once.
pub struct BinaryStlFile {
    pub header: BinaryStlHeader,
    pub triangles: Vec<MeshTriangle>,
    pub points: Vec<RawPoint>,
}

/// The mesh type of the kernel.
pub type Mesh = BinaryStlFile;

impl MeshTriangle {
    /// Appends `n` to the neighbour list.
    pub fn add_neighbor(&mut self, n: usize)
        ensures
            final(self).neighbors@ == old(self).neighbors@.push(n),
            same_but_neighbors(*final(self), *old(self)),
    {
        self.neighbors.push(n);
    }
}

impl MeshTriangle {
    /// Whether the two triangles have the same vertices, in order, and the
    /// same attribute byte count. Together with a comparison of the normals,
    /// which is floating point, this is the equality of triangles.
    pub fn same_vertices_and_attr(&self, rhs: &MeshTriangle) -> (r: bool)
        ensures
            r == (self.v1 == rhs.v1 && self.v2 == rhs.v2 && self.v3 == rhs.v3
                && self.attr_byte_count == rhs.attr_byte_count),
    {
        self.v1 == rhs.v1 && self.v2 == rhs.v2 && self.v3 == rhs.v3 && self.attr_byte_count
            == rhs.attr_byte_count
    }
}

/// `a` and `b` agree on everything but their neighbour lists.
pub open spec fn same_but_neighbors(a: MeshTriangle, b: MeshTriangle) -> bool {
    &&& a.normal == b.normal
    &&& a.v1 == b.v1
    &&& a.v2 == b.v2
    &&& a.v3 == b.v3
    &&& a.attr_byte_count == b.attr_byte_count
}

/// Triangle `t` has point `i` as a vertex.
pub open spec fn has_vertex(t: MeshTriangle, i: usize) -> bool {
    t.v1 == i || t.v2 == i || t.v3 == i
}

/// The indices below `k`, in increasing order, of the triangles of `ts` that
/// have point `i` as a vertex.
pub open spec fn triangles_with_vertex(ts: Seq<MeshTriangle>, i: usize, k: nat) -> Seq<usize>
    decreases k,
{
    if k == 0 {
        Seq::empty()
    } else {
        let prev = triangles_with_vertex(ts, i, (k - 1) as nat);
        if has_vertex(ts[k - 1], i) {
            prev.push((k - 1) as usize)
        } else {
            prev
        }
    }
}

/// What the attachment of a vertex adds to the neighbour list of an existing
/// triangle `t`, when the new triangle gets index `n`: `n` once if the vertex
/// is an existing point of `t`.
pub open spec fn link_mark(t: MeshTriangle, found: Option<usize>, n: usize) -> Seq<usize> {
    match found {
        Some(i) => if has_vertex(t, i) {
            seq![n]
        } else {
            Seq::empty()
        },
        None => Seq::empty(),
    }
}

/// What the attachment of a vertex adds to the neighbour list of the new
/// triangle: the triangles of `ts` that have the vertex, if it is an existing
/// point.
pub open spec fn link_list(ts: Seq<MeshTriangle>, found: Option<usize>) -> Seq<usize> {
    match found {
        Some(i) => triangles_with_vertex(ts, i, ts.len()),
        None => Seq::empty(),
    }
}

/// Attaches a vertex to a triangle under construction, which will be pushed
/// as triangle `ts.len()`. `found` is the index of the first point of
/// `points` equal to `point`, if there is one: then every triangle of `ts`
/// with that vertex and the new triangle become neighbours, and the index is
/// returned; otherwise `point` is appended and its index returned.
pub fn add_point_to_vec(
    point: RawPoint,
    found: Option<usize>,
    points: &mut Vec<RawPoint>,
    triangle: &mut MeshTriangle,
    ts: &mut Vec<MeshTriangle>,
) -> (r: usize)
    requires
        found matches Some(i) ==> i < old(points).len(),
    ensures
        match found {
            Some(i) => {
                &&& r == i
                &&& final(points)@ == old(points)@
            },
            None => {
                &&& r == old(points).len()
                &&& final(points)@ == old(points)@.push(point)
            },
        },
        same_but_neighbors(*final(triangle), *old(triangle)),
        final(triangle).neighbors@ == old(triangle).neighbors@ + link_list(old(ts)@, found),
        final(ts).len() == old(ts).len(),
        forall|j: int|
            0 <= j < old(ts).len() ==> {
                &&& same_but_neighbors(#[trigger] final(ts)@[j], old(ts)@[j])
                &&& final(ts)@[j].neighbors@ == old(ts)@[j].neighbors@ + link_mark(
                    old(ts)@[j],
                    found,
                    old(ts).len(),
                )
            },
{
    match found {
        None => {
            points.push(point);
            assert(triangle.neighbors@ =~= triangle.neighbors@ + Seq::<usize>::empty());
            assert forall|j: int| 0 <= j < ts.len() implies ts@[j].neighbors@ =~= ts@[j].neighbors@
                + link_mark(ts@[j], found, ts.len()) by {
            }
            points.len() - 1
        },
        Some(i) => {
            let len = ts.len();
            let ghost ts0 = ts@;
            let ghost nb0 = triangle.neighbors@;
            let mut tr_index: usize = 0;
            while tr_index < len
                invariant
                    len == ts.len(),
                    ts0.len() == len,
                    tr_index <= len,
                    same_but_neighbors(*triangle, *old(triangle)),
                    nb0 == old(triangle).neighbors@,
                    ts0 == old(ts)@,
                    triangle.neighbors@ == nb0 + triangles_with_vertex(ts0, i, tr_index as nat),
                    forall|j: int|
                        0 <= j < len ==> {
                            &&& same_but_neighbors(#[trigger] ts@[j], ts0[j])
                            &&& ts@[j].neighbors@ == ts0[j].neighbors@ + (if j < tr_index {
                                link_mark(ts0[j], found, len)
                            } else {
                                Seq::empty()
                            })
                        },
                    found == Some(i),
                decreases len - tr_index,
            {
                let t = &ts[tr_index];
                if t.v1 == i || t.v2 == i || t.v3 == i {
                    triangle.add_neighbor(tr_index);
                    ts[tr_index].add_neighbor(len);
                }
                proof {
                    assert forall|j: int| 0 <= j < len implies {
                        &&& same_but_neighbors(#[trigger] ts@[j], ts0[j])
                        &&& ts@[j].neighbors@ == ts0[j].neighbors@ + (if j < tr_index + 1 {
                            link_mark(ts0[j], found, len)
                        } else {
                            Seq::empty()
                        })
                    } by {
                        if j == tr_index {
                            assert(ts0[j].neighbors@ + link_mark(ts0[j], found, len) =~= if has_vertex(
                                ts0[j],
                                i,
                            ) {
                                ts0[j].neighbors@.push(len)
                            } else {
                                ts0[j].neighbors@ + Seq::<usize>::empty()
                            });
                        }
                    }
                    assert(nb0 + triangles_with_vertex(ts0, i, (tr_index + 1) as nat) =~= if has_vertex(
                        ts0[tr_index as int],
                        i,
                    ) {
                        (nb0 + triangles_with_vertex(ts0, i, tr_index as nat)).push(tr_index)
                    } else {
                        nb0 + triangles_with_vertex(ts0, i, tr_index as nat)
                    });
                }
                tr_index = tr_index + 1;
            }
            i
        },
    }
}

/// 1 for a vertex that is a new point, 0 for one that is an existing point.
pub open spec fn new_count(f: Option<usize>) -> nat {
    if f is None {
        1
    } else {
        0
    }
}

/// The point indices given for the three vertices of a new triangle are
/// valid when the triangle is attached to a mesh with `n` points: each
/// existing-point index names a point that exists when that vertex is
/// attached.
pub open spec fn found_valid(found: [Option<usize>; 3], n: nat) -> bool {
    &&& (found@[0] matches Some(i) ==> i < n)
    &&& (found@[1] matches Some(i) ==> i < n + new_count(found@[0]))
    &&& (found@[2] matches Some(i) ==> i < n + new_count(found@[0]) + new_count(found@[1]))
}

/// The point index that vertex `s` of a new triangle gets in a mesh that had
/// `n` points.
pub open spec fn resolved_index(found: [Option<usize>; 3], n: nat, s: int) -> int {
    match found@[s] {
        Some(i) => i as int,
        None => (n + (if s >= 1 {
            new_count(found@[0])
        } else {
            0
        }) + (if s >= 2 {
            new_count(found@[1])
        } else {
            0
        })) as int,
    }
}

/// The corners of a new triangle that become new points, in order.
pub open spec fn new_points(corners: [RawPoint; 3], found: [Option<usize>; 3]) -> Seq<RawPoint> {
    (if found@[0] is None {
        seq![corners@[0]]
    } else {
        Seq::empty()
    }) + (if found@[1] is None {
        seq![corners@[1]]
    } else {
        Seq::empty()
    }) + (if found@[2] is None {
        seq![corners@[2]]
    } else {
        Seq::empty()
    })
}

/// How a mesh changes when a triangle is attached to it: `new` is `old` with
/// the new points appended, the new triangle (with the given normal and
/// attribute, its resolved vertices and its neighbours) appended, and the new
/// triangle's index added to the neighbour lists of the triangles it shares a
/// vertex with.
pub open spec fn attached(
    old: BinaryStlFile,
    new: BinaryStlFile,
    normal: RawPoint,
    corners: [RawPoint; 3],
    attr: u16,
    found: [Option<usize>; 3],
) -> bool {
    let n = old.triangles.len();
    let np = old.points.len() as nat;
    let t = new.triangles@[n as int];
    &&& new.points@ == old.points@ + new_points(corners, found)
    &&& new.triangles.len() == n + 1
    &&& t.normal == normal
    &&& t.attr_byte_count == attr
    &&& t.v1 == resolved_index(found, np, 0)
    &&& t.v2 == resolved_index(found, np, 1)
    &&& t.v3 == resolved_index(found, np, 2)
    &&& t.neighbors@ == link_list(old.triangles@, found@[0]) + link_list(old.triangles@, found@[1])
        + link_list(old.triangles@, found@[2])
    &&& forall|j: int|
        0 <= j < n ==> {
            &&& same_but_neighbors(#[trigger] new.triangles@[j], old.triangles@[j])
            &&& new.triangles@[j].neighbors@ == old.triangles@[j].neighbors@ + link_mark(
                old.triangles@[j],
                found@[0],
                n,
            ) + link_mark(old.triangles@[j], found@[1], n) + link_mark(
                old.triangles@[j],
                found@[2],
                n,
            )
        }
}

impl BinaryStlFile {
    /// An empty mesh: zero header bytes, no triangles, no points.
    pub fn new() -> (r: BinaryStlFile)
        ensures
            r.header.header@ == Seq::new(80, |i: int| 0u8),
            r.header.num_triangles == 0,
            r.triangles@.len() == 0,
            r.points@.len() == 0,
            well_formed(r),
            writable(r),
    {
        let r = BinaryStlFile {
            header: BinaryStlHeader { header: [0u8; 80], num_triangles: 0 },
            triangles: Vec::new(),
            points: Vec::new(),
        };
        assert(r.header.header@ =~= Seq::new(80, |i: int| 0u8));
        r
    }

    /// Attaches a triangle: each corner is linked to the point `found` gives
    /// for it, or appended as a new point, and the triangle is pushed.
    fn attach(
        &mut self,
        normal: RawPoint,
        corners: [RawPoint; 3],
        attr: u16,
        found: [Option<usize>; 3],
    )
        requires
            found_valid(found, old(self).points.len() as nat),
        ensures
            attached(*old(self), *final(self), normal, corners, attr, found),
            final(self).header == old(self).header,
    {
        let ghost old_self = *self;
        let ghost ts0 = self.triangles@;
        let n = self.triangles.len();
        let mut m_tr = MeshTriangle {
            normal: normal,
            v1: 0,
            v2: 0,
            v3: 0,
            attr_byte_count: attr,
            neighbors: Vec::new(),
        };
        let a = add_point_to_vec(corners[0], found[0], &mut self.points, &mut m_tr, &mut self.triangles);
        let ghost ts1 = self.triangles@;
        let b = add_point_to_vec(corners[1], found[1], &mut self.points, &mut m_tr, &mut self.triangles);
        let ghost ts2 = self.triangles@;
        let c = add_point_to_vec(corners[2], found[2], &mut self.points, &mut m_tr, &mut self.triangles);
        let ghost ts3 = self.triangles@;
        m_tr.v1 = a;
        m_tr.v2 = b;
        m_tr.v3 = c;
        self.triangles.push(m_tr);
        proof {
            let np = old_self.points.len() as nat;
            assert(self.points@ =~= old_self.points@ + new_points(corners, found));
            assert forall|i: usize| #[trigger] triangles_with_vertex(ts1, i, n as nat)
                == triangles_with_vertex(ts0, i, n as nat) by {
                lemma_twv_same_vertices(ts1, ts0, i, n as nat);
            }
            assert forall|i: usize| #[trigger] triangles_with_vertex(ts2, i, n as nat)
                == triangles_with_vertex(ts0, i, n as nat) by {
                lemma_twv_same_vertices(ts2, ts0, i, n as nat);
            }
            assert(link_list(ts1, found@[1]) == link_list(ts0, found@[1]));
            assert(link_list(ts2, found@[2]) == link_list(ts0, found@[2]));
            assert(self.triangles@[n as int].neighbors@ =~= link_list(ts0, found@[0]) + link_list(
                ts0,
                found@[1],
            ) + link_list(ts0, found@[2]));
            assert forall|j: int| 0 <= j < n implies {
                &&& same_but_neighbors(#[trigger] self.triangles@[j], ts0[j])
                &&& self.triangles@[j].neighbors@ == ts0[j].neighbors@ + link_mark(
                    ts0[j],
                    found@[0],
                    n,
                ) + link_mark(ts0[j], found@[1], n) + link_mark(ts0[j], found@[2], n)
            } by {
                assert(self.triangles@[j] == ts3[j]);
                assert(link_mark(ts1[j], found@[1], n) == link_mark(ts0[j], found@[1], n));
                assert(link_mark(ts2[j], found@[2], n) == link_mark(ts0[j], found@[2], n));
                assert(ts3[j].neighbors@ =~= ts0[j].neighbors@ + link_mark(ts0[j], found@[0], n)
                    + link_mark(ts0[j], found@[1], n) + link_mark(ts0[j], found@[2], n));
            }
        }
    }

    /// Adds a triangle with the given normal and corners, and counts it in the
    /// header. `found` gives, for each corner in turn, the first existing
    /// point equal to it (`None` when there is none and the corner becomes a
    /// new point).
    pub fn add_triangle(&mut self, normal: RawPoint, corners: [RawPoint; 3], found: [Option<usize>; 3])
        requires
            found_valid(found, old(self).points.len() as nat),
            old(self).header.num_triangles < u32::MAX,
        ensures
            attached(*old(self), *final(self), normal, corners, 0, found),
            final(self).header.header == old(self).header.header,
            final(self).header.num_triangles == old(self).header.num_triangles + 1,
            well_formed(*old(self)) ==> well_formed(*final(self)),
            writable(*old(self)) ==> writable(*final(self)),
    {
        let ghost before = *self;
        self.attach(normal, corners, 0, found);
        proof {
            if well_formed(before) {
                lemma_attach_keeps_well_formed(before, *self, normal, corners, 0, found);
            }
            lemma_vertices_after_attach(before, *self, normal, corners, 0, found);
            if writable(before) {
                let n = before.triangles.len() as int;
                assert forall|i: int| 0 <= i < self.triangles.len() implies {
                    &&& (#[trigger] self.triangles@[i]).v1 < self.points.len()
                    &&& self.triangles@[i].v2 < self.points.len()
                    &&& self.triangles@[i].v3 < self.points.len()
                } by {
                    if i < n {
                        assert(same_but_neighbors(self.triangles@[i], before.triangles@[i]));
                    } else {
                        assert(resolved_index(found, before.points.len() as nat, 0) < self.points.len());
                        assert(resolved_index(found, before.points.len() as nat, 1) < self.points.len());
                        assert(resolved_index(found, before.points.len() as nat, 2) < self.points.len());
                    }
                }
            }
        }
        self.header.num_triangles = self.header.num_triangles + 1;
    }

    /// Adds a triangle read from a file, with the normal and attribute of the
    /// file; the header is left as it is. `found` is as for `add_triangle`.
    pub fn add_facet(&mut self, facet: &StlFacet, found: [Option<usize>; 3])
        requires
            found_valid(found, old(self).points.len() as nat),
        ensures
            attached(
                *old(self),
                *final(self),
                facet.normal,
                [facet.v1, facet.v2, facet.v3],
                facet.attr_byte_count,
                found,
            ),
            final(self).header == old(self).header,
            well_formed(*old(self)) ==> well_formed(*final(self)),
    {
        let ghost before = *self;
        self.attach(facet.normal, [facet.v1, facet.v2, facet.v3], facet.attr_byte_count, found);
        proof {
            if well_formed(before) {
                lemma_attach_keeps_well_formed(
                    before,
                    *self,
                    facet.normal,
                    [facet.v1, facet.v2, facet.v3],
                    facet.attr_byte_count,
                    found,
                );
            }
        }
    }

    /// The three corners of triangle `index`.
    pub fn get_triangle(&self, index: usize) -> (r: (RawPoint, RawPoint, RawPoint))
        requires
            index < self.triangles.len(),
            self.triangles@[index as int].v1 < self.points.len(),
            self.triangles@[index as int].v2 < self.points.len(),
            self.triangles@[index as int].v3 < self.points.len(),
        ensures
            r.0 == self.points@[self.triangles@[index as int].v1 as int],
            r.1 == self.points@[self.triangles@[index as int].v2 as int],
            r.2 == self.points@[self.triangles@[index as int].v3 as int],
    {
        let mt = &self.triangles[index];
        (self.points[mt.v1], self.points[mt.v2], self.points[mt.v3])
    }
}

proof fn lemma_twv_same_vertices(a: Seq<MeshTriangle>, b: Seq<MeshTriangle>, i: usize, k: nat)
    requires
        k <= a.len(),
        a.len() == b.len(),
        forall|j: int| 0 <= j < a.len() ==> same_but_neighbors(#[trigger] a[j], b[j]),
    ensures
        triangles_with_vertex(a, i, k) == triangles_with_vertex(b, i, k),
    decreases k,
{
    if k > 0 {
        lemma_twv_same_vertices(a, b, i, (k - 1) as nat);
        assert(same_but_neighbors(a[k - 1], b[k - 1]));
    }
}

/// The number of times `x` occurs in `s`.
pub open spec fn occurrences(s: Seq<usize>, x: usize) -> nat
    decreases s.len(),
{
    if s.len() == 0 {
        0
    } else {
        occurrences(s.drop_last(), x) + if s.last() == x {
            1nat
        } else {
            0nat
        }
    }
}

/// 1 when `b` holds.
pub open spec fn one_if(b: bool) -> nat {
    if b {
        1
    } else {
        0
    }
}

/// The number of vertices of the later triangle `b` that are vertices of the
/// earlier triangle `a`: how many times each lists the other as a neighbour.
pub open spec fn shared_vertices(a: MeshTriangle, b: MeshTriangle) -> nat {
    one_if(has_vertex(a, b.v1)) + one_if(has_vertex(a, b.v2)) + one_if(has_vertex(a, b.v3))
}

/// How many times triangles `i` and `j` of `ts` list each other as neighbours.
pub open spec fn links(ts: Seq<MeshTriangle>, i: int, j: int) -> nat {
    if i < j {
        shared_vertices(ts[i], ts[j])
    } else if j < i {
        shared_vertices(ts[j], ts[i])
    } else {
        0
    }
}

/// The invariant of a mesh built by adding triangles: every vertex index
/// names a point, every neighbour index names a triangle, and two triangles
/// list each other once for each vertex of the later one that the earlier one
/// has (in particular the relation is symmetric and no triangle lists
/// itself).
pub open spec fn well_formed(m: BinaryStlFile) -> bool {
    let ts = m.triangles@;
    &&& forall|i: int|
        0 <= i < ts.len() ==> {
            &&& (#[trigger] ts[i]).v1 < m.points.len()
            &&& ts[i].v2 < m.points.len()
            &&& ts[i].v3 < m.points.len()
        }
    &&& forall|i: int, p: int|
        0 <= i < ts.len() && 0 <= p < ts[i].neighbors@.len() ==> (#[trigger] ts[i].neighbors@[p])
            < ts.len()
    &&& forall|i: int, j: int|
        0 <= i < ts.len() && 0 <= j < ts.len() ==> #[trigger] occurrences(
            ts[i].neighbors@,
            j as usize,
        ) == links(ts, i, j)
}

proof fn lemma_occurrences_concat(a: Seq<usize>, b: Seq<usize>, x: usize)
    ensures
        occurrences(a + b, x) == occurrences(a, x) + occurrences(b, x),
    decreases b.len(),
{
    if b.len() == 0 {
        assert(a + b =~= a);
    } else {
        lemma_occurrences_concat(a, b.drop_last(), x);
        assert((a + b).drop_last() =~= a + b.drop_last());
    }
}

proof fn lemma_occurrences_absent(s: Seq<usize>, x: usize)
    requires
        forall|p: int| 0 <= p < s.len() ==> s[p] != x,
    ensures
        occurrences(s, x) == 0,
    decreases s.len(),
{
    if s.len() > 0 {
        lemma_occurrences_absent(s.drop_last(), x);
    }
}

proof fn lemma_twv(ts: Seq<MeshTriangle>, i: usize, k: nat, j: usize)
    requires
        k <= ts.len(),
        ts.len() <= usize::MAX,
    ensures
        occurrences(triangles_with_vertex(ts, i, k), j) == one_if(
            (j as int) < k && has_vertex(ts[j as int], i),
        ),
        forall|p: int|
            0 <= p < triangles_with_vertex(ts, i, k).len() ==> (#[trigger] triangles_with_vertex(
                ts,
                i,
                k,
            )[p]) < k,
    decreases k,
{
    if k > 0 {
        lemma_twv(ts, i, (k - 1) as nat, j);
        let prev = triangles_with_vertex(ts, i, (k - 1) as nat);
        if has_vertex(ts[k - 1], i) {
            assert(prev.push((k - 1) as usize).drop_last() =~= prev);
        }
    }
}

proof fn lemma_single_mark(m: Seq<usize>, x: usize, b: bool)
    requires
        m == (if b {
            seq![x]
        } else {
            Seq::<usize>::empty()
        }),
    ensures
        occurrences(m, x) == one_if(b),
{
    assert(occurrences(Seq::<usize>::empty(), x) == 0);
    if b {
        assert(m.drop_last() =~= Seq::<usize>::empty());
        assert(m.last() == x);
    } else {
        assert(m =~= Seq::<usize>::empty());
    }
}

/// The counts of an old triangle `i` after an attachment.
proof fn lemma_attach_counts_old(
    old: BinaryStlFile,
    new: BinaryStlFile,
    normal: RawPoint,
    corners: [RawPoint; 3],
    attr: u16,
    found: [Option<usize>; 3],
    i: int,
    j: int,
)
    requires
        well_formed(old),
        found_valid(found, old.points.len() as nat),
        attached(old, new, normal, corners, attr, found),
        0 <= i < old.triangles.len(),
        0 <= j <= old.triangles.len(),
        new.triangles.len() <= usize::MAX,
    ensures
        occurrences(new.triangles@[i].neighbors@, j as usize) == links(new.triangles@, i, j),
{
    let ts = old.triangles@;
    let nts = new.triangles@;
    let n = ts.len();
    let np = old.points.len() as nat;
    let t = nts[n as int];
    let f0 = found@[0];
    let f1 = found@[1];
    let f2 = found@[2];
    let ju = j as usize;
    let old_nb = ts[i].neighbors@;
    let m0 = link_mark(ts[i], f0, n as usize);
    let m1 = link_mark(ts[i], f1, n as usize);
    let m2 = link_mark(ts[i], f2, n as usize);
    assert(same_but_neighbors(nts[i], ts[i]));
    assert(nts[i].neighbors@ == old_nb + m0 + m1 + m2);
    lemma_occurrences_concat(old_nb + m0 + m1, m2, ju);
    lemma_occurrences_concat(old_nb + m0, m1, ju);
    lemma_occurrences_concat(old_nb, m0, ju);
    if j < n {
        assert(occurrences(ts[i].neighbors@, ju) == links(ts, i, j));
        assert(same_but_neighbors(nts[j], ts[j]));
        lemma_occurrences_absent(m0, ju);
        lemma_occurrences_absent(m1, ju);
        lemma_occurrences_absent(m2, ju);
    } else {
        assert forall|p: int| 0 <= p < old_nb.len() implies old_nb[p] != ju by {
            assert(old_nb[p] < n);
        }
        lemma_occurrences_absent(old_nb, ju);
        assert(ts[i].v1 < np && ts[i].v2 < np && ts[i].v3 < np);
        lemma_single_mark(m0, ju, f0 is Some && has_vertex(ts[i], f0->0));
        lemma_single_mark(m1, ju, f1 is Some && has_vertex(ts[i], f1->0));
        lemma_single_mark(m2, ju, f2 is Some && has_vertex(ts[i], f2->0));
    }
}

/// The counts of the new triangle after an attachment.
proof fn lemma_attach_counts_new(
    old: BinaryStlFile,
    new: BinaryStlFile,
    normal: RawPoint,
    corners: [RawPoint; 3],
    attr: u16,
    found: [Option<usize>; 3],
    j: int,
)
    requires
        well_formed(old),
        found_valid(found, old.points.len() as nat),
        attached(old, new, normal, corners, attr, found),
        0 <= j <= old.triangles.len(),
        new.triangles.len() <= usize::MAX,
    ensures
        occurrences(new.triangles@[old.triangles.len() as int].neighbors@, j as usize) == links(
            new.triangles@,
            old.triangles.len() as int,
            j,
        ),
{
    let ts = old.triangles@;
    let nts = new.triangles@;
    let n = ts.len();
    let np = old.points.len() as nat;
    let t = nts[n as int];
    let f0 = found@[0];
    let f1 = found@[1];
    let f2 = found@[2];
    let ju = j as usize;
    let l0 = link_list(ts, f0);
    let l1 = link_list(ts, f1);
    let l2 = link_list(ts, f2);
    lemma_occurrences_concat(l0 + l1, l2, ju);
    lemma_occurrences_concat(l0, l1, ju);
    if let Some(x) = f0 {
        lemma_twv(ts, x, n as nat, ju);
    }
    if let Some(x) = f1 {
        lemma_twv(ts, x, n as nat, ju);
    }
    if let Some(x) = f2 {
        lemma_twv(ts, x, n as nat, ju);
    }
    if j < n {
        assert(same_but_neighbors(nts[j], ts[j]));
        assert(ts[j].v1 < np && ts[j].v2 < np && ts[j].v3 < np);
    }
}

/// After an attachment every vertex index names a point.
proof fn lemma_attach_vertices(
    old: BinaryStlFile,
    new: BinaryStlFile,
    normal: RawPoint,
    corners: [RawPoint; 3],
    attr: u16,
    found: [Option<usize>; 3],
)
    requires
        well_formed(old),
        found_valid(found, old.points.len() as nat),
        attached(old, new, normal, corners, attr, found),
        new.triangles.len() <= usize::MAX,
    ensures
        forall|i: int|
            0 <= i < new.triangles@.len() ==> {
                &&& (#[trigger] new.triangles@[i]).v1 < new.points.len()
                &&& new.triangles@[i].v2 < new.points.len()
                &&& new.triangles@[i].v3 < new.points.len()
            },
{
    let ts = old.triangles@;
    let nts = new.triangles@;
    let n = ts.len();
    let np = old.points.len() as nat;
    let f0 = found@[0];
    let f1 = found@[1];
    let f2 = found@[2];
    assert(new_points(corners, found).len() == new_count(f0) + new_count(f1) + new_count(f2));
    assert(new.points.len() == np + new_count(f0) + new_count(f1) + new_count(f2));
    assert forall|i: int| 0 <= i < nts.len() implies {
        &&& (#[trigger] nts[i]).v1 < new.points.len()
        &&& nts[i].v2 < new.points.len()
        &&& nts[i].v3 < new.points.len()
    } by {
        if i < n {
            assert(same_but_neighbors(nts[i], ts[i]));
            assert(ts[i].v1 < old.points.len());
        }
    }
}

/// After an attachment every neighbour index names a triangle.
proof fn lemma_attach_ranges(
    old: BinaryStlFile,
    new: BinaryStlFile,
    normal: RawPoint,
    corners: [RawPoint; 3],
    attr: u16,
    found: [Option<usize>; 3],
)
    requires
        well_formed(old),
        found_valid(found, old.points.len() as nat),
        attached(old, new, normal, corners, attr, found),
        new.triangles.len() <= usize::MAX,
    ensures
        forall|i: int, p: int|
            0 <= i < new.triangles@.len() && 0 <= p < new.triangles@[i].neighbors@.len() ==> (
            #[trigger] new.triangles@[i].neighbors@[p]) < new.triangles@.len(),
{
    let ts = old.triangles@;
    let nts = new.triangles@;
    let n = ts.len();
    let f0 = found@[0];
    let f1 = found@[1];
    let f2 = found@[2];
    assert forall|i: int, p: int|
        0 <= i < nts.len() && 0 <= p < nts[i].neighbors@.len() implies (
        #[trigger] nts[i].neighbors@[p]) < nts.len() by {
        if i < n {
            let old_nb = ts[i].neighbors@;
            let rest = link_mark(ts[i], f0, n as usize) + link_mark(ts[i], f1, n as usize)
                + link_mark(ts[i], f2, n as usize);
            assert(nts[i].neighbors@ =~= old_nb + rest);
            if p >= old_nb.len() {
                assert(nts[i].neighbors@[p] == rest[p - old_nb.len()]);
            } else {
                assert(nts[i].neighbors@[p] == old_nb[p]);
            }
        } else {
            let l0 = link_list(ts, f0);
            let l1 = link_list(ts, f1);
            let l2 = link_list(ts, f2);
            if let Some(x) = f0 {
                lemma_twv(ts, x, n as nat, 0);
            }
            if let Some(x) = f1 {
                lemma_twv(ts, x, n as nat, 0);
            }
            if let Some(x) = f2 {
                lemma_twv(ts, x, n as nat, 0);
            }
            if p < l0.len() {
                assert(nts[i].neighbors@[p] == l0[p]);
            } else if p < l0.len() + l1.len() {
                assert(nts[i].neighbors@[p] == l1[p - l0.len()]);
            } else {
                assert(nts[i].neighbors@[p] == l2[p - l0.len() - l1.len()]);
            }
        }
    }
}

/// Attaching a triangle to a well-formed mesh keeps it well-formed.
pub proof fn lemma_attach_keeps_well_formed(
    old: BinaryStlFile,
    new: BinaryStlFile,
    normal: RawPoint,
    corners: [RawPoint; 3],
    attr: u16,
    found: [Option<usize>; 3],
)
    requires
        well_formed(old),
        found_valid(found, old.points.len() as nat),
        attached(old, new, normal, corners, attr, found),
        new.triangles.len() <= usize::MAX,
    ensures
        well_formed(new),
{
    let nts = new.triangles@;
    let n = old.triangles.len();
    lemma_attach_vertices(old, new, normal, corners, attr, found);
    lemma_attach_ranges(old, new, normal, corners, attr, found);
    assert forall|i: int, j: int| 0 <= i < nts.len() && 0 <= j < nts.len() implies #[trigger] occurrences(
        nts[i].neighbors@,
        j as usize,
    ) == links(nts, i, j) by {
        if i < n {
            lemma_attach_counts_old(old, new, normal, corners, attr, found, i, j);
        } else {
            lemma_attach_counts_new(old, new, normal, corners, attr, found, j);
        }
    }
}

/// After an attachment, the new triangle's vertices are the corners that
/// were added as new points, and the existing points that were found for the
/// others; no existing point changes.
pub proof fn lemma_vertices_after_attach(
    old: BinaryStlFile,
    new: BinaryStlFile,
    normal: RawPoint,
    corners: [RawPoint; 3],
    attr: u16,
    found: [Option<usize>; 3],
)
    requires
        found_valid(found, old.points.len() as nat),
        attached(old, new, normal, corners, attr, found),
    ensures
        forall|k: int| 0 <= k < old.points.len() ==> new.points@[k] == old.points@[k],
        forall|s: int|
            #![trigger resolved_index(found, old.points.len() as nat, s)]
            0 <= s < 3 ==> {
                let v = resolved_index(found, old.points.len() as nat, s);
                &&& 0 <= v < new.points.len()
                &&& found@[s] is None ==> new.points@[v] == corners@[s]
                &&& found@[s] matches Some(i) ==> v == i
            },
{
    let np = old.points.len() as nat;
    let f0 = found@[0];
    let f1 = found@[1];
    let f2 = found@[2];
    let extra = new_points(corners, found);
    assert(extra.len() == new_count(f0) + new_count(f1) + new_count(f2));
    assert forall|s: int|
        #![trigger resolved_index(found, np, s)]
        0 <= s < 3 implies {
        let v = resolved_index(found, np, s);
        &&& 0 <= v < new.points.len()
        &&& found@[s] is None ==> new.points@[v] == corners@[s]
        &&& found@[s] matches Some(i) ==> v == i
    } by {
        let v = resolved_index(found, np, s);
        if found@[s] is None {
            assert(new.points@[v] == extra[v - np]);
        }
    }
}

/// In a well-formed mesh the neighbour relation is symmetric, counted with
/// multiplicity, and no triangle is its own neighbour.
pub proof fn lemma_neighbors_symmetric(m: BinaryStlFile, i: int, j: int)
    requires
        well_formed(m),
        0 <= i < m.triangles.len(),
        0 <= j < m.triangles.len(),
    ensures
        occurrences(m.triangles@[i].neighbors@, j as usize) == occurrences(
            m.triangles@[j].neighbors@,
            i as usize,
        ),
        occurrences(m.triangles@[i].neighbors@, i as usize) == 0,
{
    assert(occurrences(m.triangles@[i].neighbors@, j as usize) == links(m.triangles@, i, j));
    assert(occurrences(m.triangles@[j].neighbors@, i as usize) == links(m.triangles@, j, i));
    assert(occurrences(m.triangles@[i].neighbors@, i as usize) == links(m.triangles@, i, i));
}

/// The number of points of a mesh read from triangles with the given point
/// indices, after the first `k` triangles.
pub open spec fn points_before(found: Seq<[Option<usize>; 3]>, k: int) -> nat
    decreases k,
{
    if k <= 0 {
        0
    } else {
        points_before(found, k - 1) + new_count(found[k - 1]@[0]) + new_count(found[k - 1]@[1])
            + new_count(found[k - 1]@[2])
    }
}

/// The corners of a triangle read from a file.
pub open spec fn facet_corners(f: StlFacet) -> [RawPoint; 3] {
    [f.v1, f.v2, f.v3]
}

/// The points of a mesh read from the first `k` triangles of `facets` with
/// the given point indices: the corners that became new points, in order.
pub open spec fn read_points(facets: Seq<StlFacet>, found: Seq<[Option<usize>; 3]>, k: int) -> Seq<
    RawPoint,
>
    decreases k,
{
    if k <= 0 {
        Seq::empty()
    } else {
        read_points(facets, found, k - 1) + new_points(facet_corners(facets[k - 1]), found[k - 1])
    }
}

/// The neighbour entries that triangle `j` of `ts` receives from the
/// triangles read after it, up to triangle `k` (excluded).
pub open spec fn later_marks(ts: Seq<MeshTriangle>, found: Seq<[Option<usize>; 3]>, j: int, k: int) -> Seq<
    usize,
>
    decreases k - j,
{
    if k <= j + 1 {
        Seq::empty()
    } else {
        later_marks(ts, found, j, k - 1) + link_mark(ts[j], found[k - 1]@[0], (k - 1) as usize)
            + link_mark(ts[j], found[k - 1]@[1], (k - 1) as usize) + link_mark(
            ts[j],
            found[k - 1]@[2],
            (k - 1) as usize,
        )
    }
}

/// Triangle `k` of a mesh read from `facets` with point indices `found`, of
/// which `n` triangles have been read: its normal, attribute and resolved
/// vertices, and its neighbours in the order they were linked.
pub open spec fn read_triangle_ok(
    ts: Seq<MeshTriangle>,
    facets: Seq<StlFacet>,
    found: Seq<[Option<usize>; 3]>,
    k: int,
    n: int,
) -> bool {
    let t = ts[k];
    let fk = found[k];
    let np = points_before(found, k);
    &&& t.normal == facets[k].normal
    &&& t.attr_byte_count == facets[k].attr_byte_count
    &&& t.v1 == resolved_index(fk, np, 0)
    &&& t.v2 == resolved_index(fk, np, 1)
    &&& t.v3 == resolved_index(fk, np, 2)
    &&& t.neighbors@ == link_list(ts.take(k), fk@[0]) + link_list(ts.take(k), fk@[1]) + link_list(
        ts.take(k),
        fk@[2],
    ) + later_marks(ts, found, k, n)
}

proof fn lemma_link_mark_same(a: MeshTriangle, b: MeshTriangle, f: Option<usize>, n: usize)
    requires
        same_but_neighbors(a, b),
    ensures
        link_mark(a, f, n) == link_mark(b, f, n),
{
}

proof fn lemma_later_marks_same(
    a: Seq<MeshTriangle>,
    b: Seq<MeshTriangle>,
    found: Seq<[Option<usize>; 3]>,
    j: int,
    k: int,
)
    requires
        0 <= j < a.len(),
        j < b.len(),
        same_but_neighbors(a[j], b[j]),
    ensures
        later_marks(a, found, j, k) == later_marks(b, found, j, k),
    decreases k - j,
{
    if k > j + 1 {
        lemma_later_marks_same(a, b, found, j, k - 1);
    }
}

proof fn lemma_link_list_same(a: Seq<MeshTriangle>, b: Seq<MeshTriangle>, f: Option<usize>)
    requires
        a.len() == b.len(),
        forall|j: int| 0 <= j < a.len() ==> same_but_neighbors(#[trigger] a[j], b[j]),
    ensures
        link_list(a, f) == link_list(b, f),
{
    if let Some(x) = f {
        lemma_twv_same_vertices(a, b, x, a.len());
    }
}

/// Reading triangle `i` keeps what has been established of an earlier
/// triangle `k`.
proof fn lemma_read_step_old(
    bt: Seq<MeshTriangle>,
    at: Seq<MeshTriangle>,
    facets: Seq<StlFacet>,
    fs: Seq<[Option<usize>; 3]>,
    k: int,
    i: int,
)
    requires
        0 <= k < i,
        bt.len() == i,
        at.len() == i + 1,
        i < fs.len(),
        read_triangle_ok(bt, facets, fs, k, i),
        forall|j: int|
            0 <= j < i ==> {
                &&& same_but_neighbors(#[trigger] at[j], bt[j])
                &&& at[j].neighbors@ == bt[j].neighbors@ + link_mark(bt[j], fs[i]@[0], i as usize)
                    + link_mark(bt[j], fs[i]@[1], i as usize) + link_mark(
                    bt[j],
                    fs[i]@[2],
                    i as usize,
                )
            },
    ensures
        read_triangle_ok(at, facets, fs, k, i + 1),
{
    assert(same_but_neighbors(at[k], bt[k]));
    lemma_later_marks_same(at, bt, fs, k, i);
    assert forall|j: int| 0 <= j < k implies same_but_neighbors(
        #[trigger] at.take(k)[j],
        bt.take(k)[j],
    ) by {
        assert(at.take(k)[j] == at[j]);
        assert(bt.take(k)[j] == bt[j]);
        assert(same_but_neighbors(at[j], bt[j]));
    }
    let f0 = fs[k]@[0];
    let f1 = fs[k]@[1];
    let f2 = fs[k]@[2];
    lemma_link_list_same(at.take(k), bt.take(k), f0);
    lemma_link_list_same(at.take(k), bt.take(k), f1);
    lemma_link_list_same(at.take(k), bt.take(k), f2);
    assert(at[k].neighbors@ =~= link_list(at.take(k), f0) + link_list(at.take(k), f1) + link_list(
        at.take(k),
        f2,
    ) + later_marks(at, fs, k, i + 1));
}

/// Builds the mesh of triangles read from a file. `found[k]` gives, for each
/// corner of triangle `k` in turn, the first point of the mesh so far equal
/// to it (`None` when there is none and the corner becomes a new point).
pub fn read_mesh(data: &StlData, found: &Vec<[Option<usize>; 3]>) -> (r: BinaryStlFile)
    requires
        found.len() == data.facets.len(),
        forall|k: int|
            0 <= k < found.len() ==> found_valid(#[trigger] found@[k], points_before(found@, k)),
    ensures
        r.header == data.header,
        r.triangles.len() == data.facets.len(),
        r.points@ == read_points(data.facets@, found@, data.facets.len() as int),
        forall|k: int|
            0 <= k < r.triangles.len() ==> #[trigger] read_triangle_ok(
                r.triangles@,
                data.facets@,
                found@,
                k,
                data.facets.len() as int,
            ),
        well_formed(r),
{
    let ghost facets = data.facets@;
    let ghost fs = found@;
    let n = data.facets.len();
    let mut m = BinaryStlFile { header: data.header, triangles: Vec::new(), points: Vec::new() };
    let mut i: usize = 0;
    while i < n
        invariant
            i <= n,
            n == data.facets.len(),
            n == found.len(),
            facets == data.facets@,
            fs == found@,
            forall|k: int| 0 <= k < fs.len() ==> found_valid(#[trigger] fs[k], points_before(fs, k)),
            m.header == data.header,
            m.triangles.len() == i,
            m.points.len() == points_before(fs, i as int),
            m.points@ == read_points(facets, fs, i as int),
            forall|k: int|
                0 <= k < i ==> #[trigger] read_triangle_ok(m.triangles@, facets, fs, k, i as int),
            well_formed(m),
        decreases n - i,
    {
        let ghost before = m;
        let f = &data.facets[i];
        let fi = found[i];
        assert(fi == fs[i as int]);
        m.add_facet(f, fi);
        proof {
            let bt = before.triangles@;
            let at = m.triangles@;
            let np = before.points.len() as nat;
            assert(new_points(facet_corners(*f), fi).len() == new_count(fi@[0]) + new_count(fi@[1])
                + new_count(fi@[2]));
            assert([f.v1, f.v2, f.v3] == facet_corners(*f));
            assert(m.points@ =~= read_points(facets, fs, i + 1));
            assert forall|x: usize| #[trigger] triangles_with_vertex(at.take(i as int), x, i as nat)
                == triangles_with_vertex(bt, x, i as nat) by {
                assert forall|j: int| 0 <= j < i implies same_but_neighbors(
                    #[trigger] at.take(i as int)[j],
                    bt[j],
                ) by {
                    assert(at.take(i as int)[j] == at[j]);
                }
                lemma_twv_same_vertices(at.take(i as int), bt, x, i as nat);
            }
            assert(link_list(at.take(i as int), fi@[0]) == link_list(bt, fi@[0]));
            assert(link_list(at.take(i as int), fi@[1]) == link_list(bt, fi@[1]));
            assert(link_list(at.take(i as int), fi@[2]) == link_list(bt, fi@[2]));
            assert(later_marks(at, fs, i as int, i + 1) =~= Seq::<usize>::empty());
            assert(at[i as int].neighbors@ =~= link_list(at.take(i as int), fi@[0]) + link_list(
                at.take(i as int),
                fi@[1],
            ) + link_list(at.take(i as int), fi@[2]) + later_marks(at, fs, i as int, i + 1));
            assert(read_triangle_ok(at, facets, fs, i as int, i + 1));
            assert forall|k: int| 0 <= k < i + 1 implies #[trigger] read_triangle_ok(
                at,
                facets,
                fs,
                k,
                i + 1,
            ) by {
                if k < i {
                    lemma_read_step_old(bt, at, facets, fs, k, i as int);
                }
            }
        }
        i = i + 1;
    }
    m
}

} // verus!
