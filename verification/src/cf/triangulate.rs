//! Triangulation of a planar point set: the discrete choice of the plane in
//! which the points are handled.

use vstd::prelude::*;
use crate::bo::mesh::RawPoint;

verus! {

/// Which coordinates of a plane's normal are non-zero: `ABC` when all three,
/// `AB` when x and y, and so on.
#[derive(Clone, Copy, PartialEq, Eq, Structural, Debug)]
pub enum NormalType {
    ABC,
    AB,
    AC,
    BC,
    A,
    B,
    C,
}

/// The normal type of a normal whose x, y and z coordinates are zero as the
/// flags say. A zero normal has no type.
pub open spec fn spec_normal_type(x_zero: bool, y_zero: bool, z_zero: bool) -> NormalType {
    if !x_zero && !y_zero && !z_zero {
        NormalType::ABC
    } else if !x_zero && !y_zero {
        NormalType::AB
    } else if !x_zero && !z_zero {
        NormalType::AC
    } else if !y_zero && !z_zero {
        NormalType::BC
    } else if !x_zero {
        NormalType::A
    } else if !y_zero {
        NormalType::B
    } else {
        NormalType::C
    }
}

/// Classifies a normal by which of its coordinates are zero.
pub fn classify_normal(x_zero: bool, y_zero: bool, z_zero: bool) -> (r: NormalType)
    requires
        !(x_zero && y_zero && z_zero),
    ensures
        r == spec_normal_type(x_zero, y_zero, z_zero),
{
    match (x_zero, y_zero, z_zero) {
        (false, false, false) => NormalType::ABC,
        (false, false, true) => NormalType::AB,
        (false, true, false) => NormalType::AC,
        (true, false, false) => NormalType::BC,
        (false, true, true) => NormalType::A,
        (true, false, true) => NormalType::B,
        _ => NormalType::C,
    }
}

/// A point moved into the coordinate plane in which points with a normal of
/// type `nt` are triangulated: the coordinates are rotated so that the
/// normal's zero coordinates come last (`AB` and `B`: (x, y, z) becomes
/// (z, x, y); `A`: it becomes (y, z, x); other types are left as they are).
pub open spec fn moved_to_plane(p: RawPoint, nt: NormalType) -> RawPoint {
    match nt {
        NormalType::AB | NormalType::B => RawPoint { x: p.z, y: p.x, z: p.y },
        NormalType::A => RawPoint { x: p.y, y: p.z, z: p.x },
        _ => p,
    }
}

/// A point moved back from the working plane of normal type `nt`.
pub open spec fn moved_back(p: RawPoint, nt: NormalType) -> RawPoint {
    match nt {
        NormalType::AB | NormalType::B => RawPoint { x: p.y, y: p.z, z: p.x },
        NormalType::A => RawPoint { x: p.z, y: p.x, z: p.y },
        _ => p,
    }
}

/// Moves a point into the working plane of normal type `nt`.
pub fn point_transform(p: &mut RawPoint, nt: &NormalType)
    ensures
        *final(p) == moved_to_plane(*old(p), *nt),
        (*nt == NormalType::AB || *nt == NormalType::B) ==> *final(p) == (RawPoint {
            x: old(p).z,
            y: old(p).x,
            z: old(p).y,
        }),
        *nt == NormalType::A ==> *final(p) == (RawPoint { x: old(p).y, y: old(p).z, z: old(p).x }),
        (*nt == NormalType::ABC || *nt == NormalType::AC || *nt == NormalType::BC || *nt
            == NormalType::C) ==> *final(p) == *old(p),
{
    match nt {
        NormalType::AB | NormalType::B => {
            p.swap_yz();
            p.swap_xy();
        },
        NormalType::A => {
            p.swap_xz();
            p.swap_xy();
        },
        _ => {},
    }
}

/// The point `p` of the working plane of normal type `nt`, moved back.
pub fn inv_point_transform(p: &RawPoint, nt: &NormalType) -> (r: RawPoint)
    ensures
        r == moved_back(*p, *nt),
        (*nt == NormalType::AB || *nt == NormalType::B) ==> r == (RawPoint {
            x: p.y,
            y: p.z,
            z: p.x,
        }),
        *nt == NormalType::A ==> r == (RawPoint { x: p.z, y: p.x, z: p.y }),
        (*nt == NormalType::ABC || *nt == NormalType::AC || *nt == NormalType::BC || *nt
            == NormalType::C) ==> r == *p,
{
    let mut pc = *p;
    match nt {
        NormalType::AB | NormalType::B => {
            pc.swap_xy();
            pc.swap_yz();
        },
        NormalType::A => {
            pc.swap_xy();
            pc.swap_xz();
        },
        _ => {},
    }
    pc
}

/// Moving a point into the working plane and back gives the point again,
/// and so does moving it back and then into the plane.
pub proof fn lemma_transform_round_trip(p: RawPoint, nt: NormalType)
    ensures
        moved_back(moved_to_plane(p, nt), nt) == p,
        moved_to_plane(moved_back(p, nt), nt) == p,
{
}

/// The point whose coordinates are those of `p`, each replaced by `g`.
pub open spec fn map_coords(p: RawPoint, g: spec_fn(u32) -> u32) -> RawPoint {
    RawPoint { x: g(p.x), y: g(p.y), z: g(p.z) }
}

/// Moving a point into the working plane and back only permutes its
/// coordinates, by one permutation for each normal type, whatever the
/// coordinate values are: both moves commute with replacing every
/// coordinate by a function of itself.
pub proof fn lemma_transform_permutes(p: RawPoint, nt: NormalType, g: spec_fn(u32) -> u32)
    ensures
        moved_to_plane(map_coords(p, g), nt) == map_coords(moved_to_plane(p, nt), g),
        moved_back(map_coords(p, g), nt) == map_coords(moved_back(p, nt), g),
{
}

} // verus!
