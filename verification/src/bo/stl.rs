//! The binary STL format: an 80-byte header, the number of triangles as a
//! little-endian `u32`, then 50 bytes per triangle (normal and three vertices
//! as little-endian `f32` coordinates, then a little-endian `u16` attribute
//! byte count).

use vstd::prelude::*;
use byteorder::ByteOrder;
use byteorder::LittleEndian;
use crate::bo::mesh::RawPoint;
use crate::bo::mesh::BinaryStlHeader;
use crate::bo::mesh::BinaryStlFile;
use crate::bo::mesh::MeshTriangle;
use crate::bo::mesh::has_vertex;
use crate::bo::mesh::well_formed;
use crate::bo::mesh::new_count;
use crate::bo::mesh::resolved_index;
use crate::bo::mesh::found_valid;
use crate::bo::mesh::points_before;
use crate::bo::mesh::read_points;
use crate::bo::mesh::new_points;
use crate::bo::mesh::facet_corners;

verus! {

/// The little-endian number in the first two bytes of `b`.
pub open spec fn le_u16(b: Seq<u8>) -> u16 {
    (b[0] as int + 256 * (b[1] as int)) as u16
}

/// The little-endian number in the first four bytes of `b`.
pub open spec fn le_u32(b: Seq<u8>) -> u32 {
    (b[0] as int + 256 * (b[1] as int) + 65536 * (b[2] as int) + 16777216 * (b[3] as int)) as u32
}

/// The two little-endian bytes of `n`.
pub open spec fn u16_le_bytes(n: u16) -> Seq<u8> {
    seq![(n % 256) as u8, (n / 256) as u8]
}

/// The four little-endian bytes of `n`.
pub open spec fn u32_le_bytes(n: u32) -> Seq<u8> {
    seq![
        (n % 256) as u8,
        ((n / 256) % 256) as u8,
        ((n / 65536) % 256) as u8,
        (n / 16777216) as u8,
    ]
}

/// `LittleEndian::read_u16` of the byteorder crate: the first two bytes of
/// `buf` read as a little-endian number (it panics on fewer than two bytes).
#[verifier::external_body]
fn read_le_u16(buf: &[u8]) -> (r: u16)
    requires
        buf@.len() >= 2,
    ensures
        r == le_u16(buf@),
{
    LittleEndian::read_u16(buf)
}

/// `LittleEndian::read_u32` of the byteorder crate: the first four bytes of
/// `buf` read as a little-endian number (it panics on fewer than four bytes).
#[verifier::external_body]
fn read_le_u32(buf: &[u8]) -> (r: u32)
    requires
        buf@.len() >= 4,
    ensures
        r == le_u32(buf@),
{
    LittleEndian::read_u32(buf)
}

/// `LittleEndian::write_u16` of the byteorder crate, into a fresh two-byte
/// buffer: the little-endian bytes of `n`.
#[verifier::external_body]
fn write_le_u16(n: u16) -> (r: [u8; 2])
    ensures
        r@ == u16_le_bytes(n),
{
    let mut buf = [0u8; 2];
    LittleEndian::write_u16(&mut buf, n);
    buf
}

/// `LittleEndian::write_u32` of the byteorder crate, into a fresh four-byte
/// buffer: the little-endian bytes of `n`.
#[verifier::external_body]
fn write_le_u32(n: u32) -> (r: [u8; 4])
    ensures
        r@ == u32_le_bytes(n),
{
    let mut buf = [0u8; 4];
    LittleEndian::write_u32(&mut buf, n);
    buf
}

/// Decoding the bytes of a `u16` gives the number back.
pub proof fn lemma_u16_round_trip(n: u16)
    ensures
        le_u16(u16_le_bytes(n)) == n,
        u16_le_bytes(n).len() == 2,
{
    let b = u16_le_bytes(n);
    assert(b[0] == (n % 256) as u8);
    assert(b[1] == (n / 256) as u8);
    assert(((n % 256) as u8) as int + 256 * (((n / 256) as u8) as int) == n) by (bit_vector);
}

/// Decoding the bytes of a `u32` gives the number back.
pub proof fn lemma_u32_round_trip(n: u32)
    ensures
        le_u32(u32_le_bytes(n)) == n,
        u32_le_bytes(n).len() == 4,
{
    let b = u32_le_bytes(n);
    assert(b[0] == (n % 256) as u8);
    assert(b[1] == ((n / 256) % 256) as u8);
    assert(b[2] == ((n / 65536) % 256) as u8);
    assert(b[3] == (n / 16777216) as u8);
    assert(((n % 256) as u8) as int + 256 * ((((n / 256) % 256) as u8) as int) + 65536 * ((((n
        / 65536) % 256) as u8) as int) + 16777216 * (((n / 16777216) as u8) as int) == n)
        by (bit_vector);
}

/// One triangle as a binary STL file stores it.
#[derive(Clone, Copy, PartialEq, Eq, Structural, Debug)]
pub struct StlFacet {
    pub normal: RawPoint,
    pub v1: RawPoint,
    pub v2: RawPoint,
    pub v3: RawPoint,
    pub attr_byte_count: u16,
}

/// Why bytes could not be read as a binary STL file.
#[derive(Clone, Copy, PartialEq, Eq, Structural, Debug)]
pub enum StlError {
    /// Fewer than 80 bytes: the header is cut short.
    ShortHeader,
    /// The triangle count or a triangle is cut short.
    UnexpectedEof,
}

/// The content of a binary STL file as it is stored: the header and the
/// triangles in order.
pub struct StlData {
    pub header: BinaryStlHeader,
    pub facets: Vec<StlFacet>,
}

/// The twelve bytes of a point.
pub open spec fn point_bytes(p: RawPoint) -> Seq<u8> {
    u32_le_bytes(p.x) + u32_le_bytes(p.y) + u32_le_bytes(p.z)
}

/// The fifty bytes of a triangle.
pub open spec fn facet_bytes(f: StlFacet) -> Seq<u8> {
    point_bytes(f.normal) + point_bytes(f.v1) + point_bytes(f.v2) + point_bytes(f.v3)
        + u16_le_bytes(f.attr_byte_count)
}

/// The bytes of a sequence of triangles, one after the other.
pub open spec fn facets_bytes(fs: Seq<StlFacet>) -> Seq<u8>
    decreases fs.len(),
{
    if fs.len() == 0 {
        Seq::empty()
    } else {
        facets_bytes(fs.drop_last()) + facet_bytes(fs.last())
    }
}

/// The bytes of a file with header bytes `hb`, triangle count `count` and
/// triangles `fs`.
pub open spec fn file_bytes(hb: Seq<u8>, count: u32, fs: Seq<StlFacet>) -> Seq<u8> {
    hb + u32_le_bytes(count) + facets_bytes(fs)
}

/// The size of a file that holds `count` triangles.
pub open spec fn stl_size(count: u32) -> int {
    84 + 50 * count
}

/// The triangle count stored in `b`.
pub open spec fn count_at(b: Seq<u8>) -> u32 {
    le_u32(b.subrange(80, 84))
}

/// The point stored at offset `off` of `b`.
pub open spec fn point_at(b: Seq<u8>, off: int) -> RawPoint {
    RawPoint {
        x: le_u32(b.subrange(off, off + 4)),
        y: le_u32(b.subrange(off + 4, off + 8)),
        z: le_u32(b.subrange(off + 8, off + 12)),
    }
}

/// The triangle stored at offset `off` of `b`.
pub open spec fn facet_at(b: Seq<u8>, off: int) -> StlFacet {
    StlFacet {
        normal: point_at(b, off),
        v1: point_at(b, off + 12),
        v2: point_at(b, off + 24),
        v3: point_at(b, off + 36),
        attr_byte_count: le_u16(b.subrange(off + 48, off + 50)),
    }
}

/// What reading `b` as a binary STL file gives: the header bytes, the
/// triangle count and the triangles, or the reason it fails. Bytes after the
/// last triangle are ignored.
pub open spec fn spec_parse(b: Seq<u8>) -> Result<(Seq<u8>, u32, Seq<StlFacet>), StlError> {
    if b.len() < 80 {
        Err(StlError::ShortHeader)
    } else if b.len() < 84 || b.len() < stl_size(count_at(b)) {
        Err(StlError::UnexpectedEof)
    } else {
        Ok(
            (
                b.take(80),
                count_at(b),
                Seq::new(count_at(b) as nat, |i: int| facet_at(b, 84 + 50 * i)),
            ),
        )
    }
}

/// The plain content of a read result.
pub open spec fn data_view(r: Result<StlData, StlError>) -> Result<
    (Seq<u8>, u32, Seq<StlFacet>),
    StlError,
> {
    match r {
        Ok(d) => Ok((d.header.header@, d.header.num_triangles, d.facets@)),
        Err(e) => Err(e),
    }
}

fn read_point(bytes: &[u8], off: usize) -> (p: RawPoint)
    requires
        off + 12 <= bytes.len(),
    ensures
        p == point_at(bytes@, off as int),
{
    let x = read_le_u32(vstd::slice::slice_subrange(bytes, off, off + 4));
    let y = read_le_u32(vstd::slice::slice_subrange(bytes, off + 4, off + 8));
    let z = read_le_u32(vstd::slice::slice_subrange(bytes, off + 8, off + 12));
    RawPoint { x, y, z }
}

fn read_facet(bytes: &[u8], off: usize) -> (f: StlFacet)
    requires
        off + 50 <= bytes.len(),
    ensures
        f == facet_at(bytes@, off as int),
{
    let normal = read_point(bytes, off);
    let v1 = read_point(bytes, off + 12);
    let v2 = read_point(bytes, off + 24);
    let v3 = read_point(bytes, off + 36);
    let attr = read_le_u16(vstd::slice::slice_subrange(bytes, off + 48, off + 50));
    StlFacet { normal, v1, v2, v3, attr_byte_count: attr }
}

/// Reads a binary STL file from its bytes.
pub fn parse_stl(bytes: &[u8]) -> (r: Result<StlData, StlError>)
    ensures
        data_view(r) == spec_parse(bytes@),
{
    if bytes.len() < 80 {
        return Err(StlError::ShortHeader);
    }
    let mut header = [0u8; 80];
    let mut i: usize = 0;
    while i < 80
        invariant
            i <= 80,
            bytes@.len() >= 80,
            forall|j: int| 0 <= j < i ==> header@[j] == bytes@[j],
        decreases 80 - i,
    {
        header[i] = bytes[i];
        i = i + 1;
    }
    assert(header@ =~= bytes@.take(80));
    if bytes.len() < 84 {
        return Err(StlError::UnexpectedEof);
    }
    let count = read_le_u32(vstd::slice::slice_subrange(bytes, 80, 84));
    if (bytes.len() as u64) < 84 + 50 * (count as u64) {
        return Err(StlError::UnexpectedEof);
    }
    let mut facets: Vec<StlFacet> = Vec::new();
    let mut off: usize = 84;
    let mut k: u32 = 0;
    while k < count
        invariant
            k <= count,
            count == count_at(bytes@),
            k < count ==> off == 84 + 50 * k,
            stl_size(count) <= bytes.len(),
            facets@ == Seq::new(k as nat, |i: int| facet_at(bytes@, 84 + 50 * i)),
        decreases count - k,
    {
        let f = read_facet(bytes, off);
        facets.push(f);
        assert(facets@ =~= Seq::new((k + 1) as nat, |i: int| facet_at(bytes@, 84 + 50 * i)));
        k = k + 1;
        if k < count {
            off = off + 50;
        }
    }
    let r = Ok(StlData { header: BinaryStlHeader { header, num_triangles: count }, facets });
    assert(data_view(r) == spec_parse(bytes@));
    r
}

fn push_u16(out: &mut Vec<u8>, n: u16)
    ensures
        final(out)@ == old(out)@ + u16_le_bytes(n),
{
    let b = write_le_u16(n);
    out.push(b[0]);
    out.push(b[1]);
    assert(out@ =~= old(out)@ + u16_le_bytes(n));
}

fn push_u32(out: &mut Vec<u8>, n: u32)
    ensures
        final(out)@ == old(out)@ + u32_le_bytes(n),
{
    let b = write_le_u32(n);
    out.push(b[0]);
    out.push(b[1]);
    out.push(b[2]);
    out.push(b[3]);
    assert(out@ =~= old(out)@ + u32_le_bytes(n));
}

fn push_point(out: &mut Vec<u8>, p: &RawPoint)
    ensures
        final(out)@ == old(out)@ + point_bytes(*p),
{
    push_u32(out, p.x);
    push_u32(out, p.y);
    push_u32(out, p.z);
    assert(out@ =~= old(out)@ + point_bytes(*p));
}

fn push_facet(out: &mut Vec<u8>, f: &StlFacet)
    ensures
        final(out)@ == old(out)@ + facet_bytes(*f),
{
    push_point(out, &f.normal);
    push_point(out, &f.v1);
    push_point(out, &f.v2);
    push_point(out, &f.v3);
    push_u16(out, f.attr_byte_count);
    assert(out@ =~= old(out)@ + facet_bytes(*f));
}

/// The triangle `t` of `stl` as the file stores it.
pub open spec fn facet_of(stl: BinaryStlFile, t: MeshTriangle) -> StlFacet {
    StlFacet {
        normal: t.normal,
        v1: stl.points@[t.v1 as int],
        v2: stl.points@[t.v2 as int],
        v3: stl.points@[t.v3 as int],
        attr_byte_count: t.attr_byte_count,
    }
}

/// The triangles of `stl` as the file stores them.
pub open spec fn file_facets(stl: BinaryStlFile) -> Seq<StlFacet> {
    Seq::new(stl.triangles.len() as nat, |i: int| facet_of(stl, stl.triangles@[i]))
}

/// The header counts the triangles and every vertex index names a point.
pub open spec fn writable(stl: BinaryStlFile) -> bool {
    &&& stl.header.num_triangles == stl.triangles.len()
    &&& forall|i: int|
        0 <= i < stl.triangles.len() ==> {
            &&& (#[trigger] stl.triangles@[i]).v1 < stl.points.len()
            &&& stl.triangles@[i].v2 < stl.points.len()
            &&& stl.triangles@[i].v3 < stl.points.len()
        }
}

/// Whether `stl` can be written: the header counts the triangles and every
/// vertex index names a point.
pub fn is_writable(stl: &BinaryStlFile) -> (r: bool)
    ensures
        r == writable(*stl),
        r <==> {
            &&& stl.header.num_triangles == stl.triangles.len()
            &&& forall|i: int|
                0 <= i < stl.triangles.len() ==> {
                    &&& (#[trigger] stl.triangles@[i]).v1 < stl.points.len()
                    &&& stl.triangles@[i].v2 < stl.points.len()
                    &&& stl.triangles@[i].v3 < stl.points.len()
                }
        },
        well_formed(*stl) && stl.header.num_triangles == stl.triangles.len() ==> r,
{
    if stl.header.num_triangles as usize != stl.triangles.len() {
        return false;
    }
    let n = stl.points.len();
    let mut i: usize = 0;
    while i < stl.triangles.len()
        invariant
            i <= stl.triangles.len(),
            n == stl.points.len(),
            forall|j: int|
                0 <= j < i ==> {
                    &&& (#[trigger] stl.triangles@[j]).v1 < n
                    &&& stl.triangles@[j].v2 < n
                    &&& stl.triangles@[j].v3 < n
                },
        decreases stl.triangles.len() - i,
    {
        let t = &stl.triangles[i];
        if t.v1 >= n || t.v2 >= n || t.v3 >= n {
            return false;
        }
        i = i + 1;
    }
    true
}

impl BinaryStlFile {
    /// The bytes of the mesh as a binary STL file.
    pub fn write_stl(&self) -> (r: Vec<u8>)
        requires
            writable(*self),
        ensures
            r@ == file_bytes(self.header.header@, self.header.num_triangles, file_facets(*self)),
    {
        write_stl(self)
    }
}

/// The bytes of `stl` as a binary STL file.
pub fn write_stl(stl: &BinaryStlFile) -> (r: Vec<u8>)
    requires
        writable(*stl),
    ensures
        r@ == file_bytes(stl.header.header@, stl.header.num_triangles, file_facets(*stl)),
{
    let ghost fs = file_facets(*stl);
    let mut out: Vec<u8> = Vec::new();
    let mut i: usize = 0;
    while i < 80
        invariant
            i <= 80,
            out@ == stl.header.header@.take(i as int),
        decreases 80 - i,
    {
        out.push(stl.header.header[i]);
        assert(out@ =~= stl.header.header@.take(i as int + 1));
        i = i + 1;
    }
    assert(out@ =~= stl.header.header@);
    push_u32(&mut out, stl.header.num_triangles);
    assert(fs.take(0) =~= Seq::<StlFacet>::empty());
    assert(out@ =~= file_bytes(stl.header.header@, stl.header.num_triangles, fs.take(0)));
    let n = stl.triangles.len();
    let mut k: usize = 0;
    while k < n
        invariant
            k <= n,
            n == stl.triangles.len(),
            writable(*stl),
            fs == file_facets(*stl),
            out@ == file_bytes(stl.header.header@, stl.header.num_triangles, fs.take(k as int)),
        decreases n - k,
    {
        let t = &stl.triangles[k];
        let f = StlFacet {
            normal: t.normal,
            v1: stl.points[t.v1],
            v2: stl.points[t.v2],
            v3: stl.points[t.v3],
            attr_byte_count: t.attr_byte_count,
        };
        assert(f == fs[k as int]);
        push_facet(&mut out, &f);
        assert(fs.take(k as int + 1).drop_last() =~= fs.take(k as int));
        assert(out@ =~= file_bytes(stl.header.header@, stl.header.num_triangles, fs.take(k as int + 1)));
        k = k + 1;
    }
    assert(fs.take(n as int) =~= fs);
    out
}

proof fn lemma_split(b: Seq<u8>, off: int, x: Seq<u8>, y: Seq<u8>)
    requires
        0 <= off,
        off + x.len() + y.len() <= b.len(),
        b.subrange(off, off + x.len() + y.len()) == x + y,
    ensures
        b.subrange(off, off + x.len()) == x,
        b.subrange(off + x.len(), off + x.len() + y.len()) == y,
{
    assert forall|j: int| 0 <= j < x.len() + y.len() implies b[off + j] == #[trigger] (x + y)[j] by {
        assert(b.subrange(off, off + x.len() + y.len())[j] == b[off + j]);
    }
    assert forall|j: int| 0 <= j < x.len() implies b.subrange(off, off + x.len())[j] == x[j] by {
        assert((x + y)[j] == x[j]);
    }
    assert forall|j: int| 0 <= j < y.len() implies b.subrange(
        off + x.len(),
        off + x.len() + y.len(),
    )[j] == y[j] by {
        assert((x + y)[x.len() + j] == y[j]);
    }
    assert(b.subrange(off, off + x.len()) =~= x);
    assert(b.subrange(off + x.len(), off + x.len() + y.len()) =~= y);
}

proof fn lemma_point_at(b: Seq<u8>, off: int, p: RawPoint)
    requires
        0 <= off,
        off + 12 <= b.len(),
        b.subrange(off, off + 12) == point_bytes(p),
    ensures
        point_at(b, off) == p,
{
    let bx = u32_le_bytes(p.x);
    let by = u32_le_bytes(p.y);
    let bz = u32_le_bytes(p.z);
    lemma_u32_round_trip(p.x);
    lemma_u32_round_trip(p.y);
    lemma_u32_round_trip(p.z);
    lemma_split(b, off, bx + by, bz);
    lemma_split(b, off, bx, by);
}

proof fn lemma_facet_at(b: Seq<u8>, off: int, f: StlFacet)
    requires
        0 <= off,
        off + 50 <= b.len(),
        b.subrange(off, off + 50) == facet_bytes(f),
    ensures
        facet_at(b, off) == f,
{
    let p0 = point_bytes(f.normal);
    let p1 = point_bytes(f.v1);
    let p2 = point_bytes(f.v2);
    let p3 = point_bytes(f.v3);
    let u = u16_le_bytes(f.attr_byte_count);
    lemma_u32_round_trip(0);
    lemma_u16_round_trip(f.attr_byte_count);
    assert(p0.len() == 12 && p1.len() == 12 && p2.len() == 12 && p3.len() == 12);
    lemma_split(b, off, p0 + p1 + p2 + p3, u);
    lemma_split(b, off, p0 + p1 + p2, p3);
    lemma_split(b, off, p0 + p1, p2);
    lemma_split(b, off, p0, p1);
    lemma_point_at(b, off, f.normal);
    lemma_point_at(b, off + 12, f.v1);
    lemma_point_at(b, off + 24, f.v2);
    lemma_point_at(b, off + 36, f.v3);
}

proof fn lemma_facet_bytes_len(f: StlFacet)
    ensures
        facet_bytes(f).len() == 50,
{
    assert(u32_le_bytes(f.normal.x).len() == 4);
    assert(forall|n: u32| (#[trigger] u32_le_bytes(n)).len() == 4);
    assert(forall|p: RawPoint| (#[trigger] point_bytes(p)).len() == 12);
    assert(u16_le_bytes(f.attr_byte_count).len() == 2);
}

proof fn lemma_facets_bytes_len(fs: Seq<StlFacet>)
    ensures
        facets_bytes(fs).len() == 50 * fs.len(),
    decreases fs.len(),
{
    if fs.len() > 0 {
        lemma_facets_bytes_len(fs.drop_last());
        lemma_facet_bytes_len(fs.last());
    }
}

proof fn lemma_facets_bytes_at(fs: Seq<StlFacet>, i: int)
    requires
        0 <= i < fs.len(),
    ensures
        facets_bytes(fs).subrange(50 * i, 50 * i + 50) == facet_bytes(fs[i]),
    decreases fs.len(),
{
    let prev = fs.drop_last();
    lemma_facets_bytes_len(prev);
    lemma_facets_bytes_len(fs);
    lemma_facet_bytes_len(fs.last());
    if i == fs.len() - 1 {
        assert(facets_bytes(fs).subrange(50 * i, 50 * i + 50) =~= facet_bytes(fs[i]));
    } else {
        lemma_facets_bytes_at(prev, i);
        assert(facets_bytes(fs).subrange(50 * i, 50 * i + 50) =~= facets_bytes(prev).subrange(
            50 * i,
            50 * i + 50,
        ));
    }
}

/// Reading the bytes of a file gives back the header bytes, the triangle
/// count and the triangles that were written.
pub proof fn lemma_read_after_write(hb: Seq<u8>, count: u32, fs: Seq<StlFacet>)
    requires
        hb.len() == 80,
        count == fs.len(),
    ensures
        spec_parse(file_bytes(hb, count, fs)) == Ok::<(Seq<u8>, u32, Seq<StlFacet>), StlError>(
            (hb, count, fs),
        ),
{
    let b = file_bytes(hb, count, fs);
    let fb = facets_bytes(fs);
    lemma_u32_round_trip(count);
    lemma_facets_bytes_len(fs);
    assert(b.len() == stl_size(count));
    assert(b.subrange(80, 84) =~= u32_le_bytes(count));
    assert(count_at(b) == count);
    assert(b.take(80) =~= hb);
    assert forall|i: int| 0 <= i < fs.len() implies facet_at(b, 84 + 50 * i) == fs[i] by {
        lemma_facets_bytes_at(fs, i);
        assert(b.subrange(84 + 50 * i, 84 + 50 * i + 50) =~= fb.subrange(50 * i, 50 * i + 50));
        lemma_facet_at(b, 84 + 50 * i, fs[i]);
    }
    assert(Seq::new(count as nat, |i: int| facet_at(b, 84 + 50 * i)) =~= fs);
}

proof fn lemma_u16_bytes_of_decode(x: Seq<u8>)
    requires
        x.len() == 2,
    ensures
        u16_le_bytes(le_u16(x)) == x,
{
    let b0 = x[0];
    let b1 = x[1];
    let n = le_u16(x);
    assert(n == (b0 as int + 256 * (b1 as int)) as u16);
    assert((n % 256) as u8 == b0 && (n / 256) as u8 == b1) by (bit_vector)
        requires
            n == (b0 as int + 256 * (b1 as int)) as u16,
    ;
    assert(u16_le_bytes(n) =~= x);
}

proof fn lemma_u32_bytes_of_decode(x: Seq<u8>)
    requires
        x.len() == 4,
    ensures
        u32_le_bytes(le_u32(x)) == x,
{
    let b0 = x[0];
    let b1 = x[1];
    let b2 = x[2];
    let b3 = x[3];
    let n = le_u32(x);
    assert(n == (b0 as int + 256 * (b1 as int) + 65536 * (b2 as int) + 16777216 * (b3 as int)) as u32);
    assert((n % 256) as u8 == b0 && ((n / 256) % 256) as u8 == b1 && ((n / 65536) % 256) as u8 == b2
        && (n / 16777216) as u8 == b3) by (bit_vector)
        requires
            n == (b0 as int + 256 * (b1 as int) + 65536 * (b2 as int) + 16777216 * (b3 as int)) as u32,
    ;
    assert(u32_le_bytes(n) =~= x);
}

proof fn lemma_point_bytes_of_decode(b: Seq<u8>, off: int)
    requires
        0 <= off,
        off + 12 <= b.len(),
    ensures
        point_bytes(point_at(b, off)) == b.subrange(off, off + 12),
{
    lemma_u32_bytes_of_decode(b.subrange(off, off + 4));
    lemma_u32_bytes_of_decode(b.subrange(off + 4, off + 8));
    lemma_u32_bytes_of_decode(b.subrange(off + 8, off + 12));
    assert(point_bytes(point_at(b, off)) =~= b.subrange(off, off + 12));
}

proof fn lemma_join(b: Seq<u8>, off: int, x: Seq<u8>, y: Seq<u8>)
    requires
        0 <= off,
        off + x.len() + y.len() <= b.len(),
        b.subrange(off, off + x.len()) == x,
        b.subrange(off + x.len(), off + x.len() + y.len()) == y,
    ensures
        b.subrange(off, off + x.len() + y.len()) == x + y,
{
    assert forall|j: int| 0 <= j < x.len() + y.len() implies b.subrange(
        off,
        off + x.len() + y.len(),
    )[j] == (x + y)[j] by {
        if j < x.len() {
            assert(b.subrange(off, off + x.len())[j] == b[off + j]);
        } else {
            assert(b.subrange(off + x.len(), off + x.len() + y.len())[j - x.len()] == b[off + j]);
        }
    }
    assert(b.subrange(off, off + x.len() + y.len()) =~= x + y);
}

proof fn lemma_facet_bytes_of_decode(b: Seq<u8>, off: int)
    requires
        0 <= off,
        off + 50 <= b.len(),
    ensures
        facet_bytes(facet_at(b, off)) == b.subrange(off, off + 50),
{
    let f = facet_at(b, off);
    let p0 = point_bytes(f.normal);
    let p1 = point_bytes(f.v1);
    let p2 = point_bytes(f.v2);
    let p3 = point_bytes(f.v3);
    let u = u16_le_bytes(f.attr_byte_count);
    lemma_point_bytes_of_decode(b, off);
    lemma_point_bytes_of_decode(b, off + 12);
    lemma_point_bytes_of_decode(b, off + 24);
    lemma_point_bytes_of_decode(b, off + 36);
    lemma_u16_bytes_of_decode(b.subrange(off + 48, off + 50));
    lemma_join(b, off, p0, p1);
    lemma_join(b, off, p0 + p1, p2);
    lemma_join(b, off, p0 + p1 + p2, p3);
    lemma_join(b, off, p0 + p1 + p2 + p3, u);
}

proof fn lemma_facets_bytes_of_decode(b: Seq<u8>, c: nat)
    requires
        84 + 50 * c <= b.len(),
    ensures
        facets_bytes(Seq::new(c, |i: int| facet_at(b, 84 + 50 * i))) == b.subrange(
            84,
            84 + 50 * (c as int),
        ),
    decreases c,
{
    let fs = Seq::new(c, |i: int| facet_at(b, 84 + 50 * i));
    if c == 0 {
        assert(b.subrange(84, 84) =~= Seq::<u8>::empty());
    } else {
        let prev = Seq::new((c - 1) as nat, |i: int| facet_at(b, 84 + 50 * i));
        lemma_facets_bytes_of_decode(b, (c - 1) as nat);
        assert(fs.drop_last() =~= prev);
        let off = 84 + 50 * (c - 1);
        lemma_facet_bytes_of_decode(b, off);
        assert(fs.last() == facet_at(b, off));
        let x = facets_bytes(prev);
        let y = facet_bytes(fs.last());
        assert(x.len() == 50 * (c - 1));
        assert(y.len() == 50);
        lemma_join(b, 84, x, y);
    }
}

/// Writing what was read gives back the bytes that were read, up to the end
/// of the last triangle: reading loses nothing.
pub proof fn lemma_write_after_read(b: Seq<u8>, hb: Seq<u8>, count: u32, fs: Seq<StlFacet>)
    requires
        spec_parse(b) == Ok::<(Seq<u8>, u32, Seq<StlFacet>), StlError>((hb, count, fs)),
    ensures
        file_bytes(hb, count, fs) == b.take(stl_size(count)),
{
    lemma_u32_bytes_of_decode(b.subrange(80, 84));
    lemma_facets_bytes_of_decode(b, count as nat);
    assert(file_bytes(hb, count, fs) =~= b.take(stl_size(count)));
}

/// Vertex `s` (0 to 2) of triangle `t`.
pub open spec fn vertex_of(t: MeshTriangle, s: int) -> usize {
    if s == 0 {
        t.v1
    } else if s == 1 {
        t.v2
    } else {
        t.v3
    }
}

/// Point `v` is a vertex of a triangle before `k`, or of triangle `k` before
/// vertex `s`.
pub open spec fn seen_before(ts: Seq<MeshTriangle>, k: int, s: int, v: usize) -> bool {
    ||| exists|j: int| 0 <= j < k && #[trigger] has_vertex(ts[j], v)
    ||| exists|s2: int| 0 <= s2 < s && #[trigger] vertex_of(ts[k], s2) == v
}

/// The point index a reader finds for vertex `s` of triangle `k` when the
/// points of the mesh are all different: the vertex itself if it was met
/// before, none otherwise.
pub open spec fn first_use_slot(ts: Seq<MeshTriangle>, k: int, s: int) -> Option<usize> {
    if seen_before(ts, k, s, vertex_of(ts[k], s)) {
        Some(vertex_of(ts[k], s))
    } else {
        None
    }
}

/// The point indices a reader finds for all triangles of `ts` when the points
/// of the mesh are all different.
pub open spec fn first_use_found(ts: Seq<MeshTriangle>) -> Seq<[Option<usize>; 3]> {
    Seq::new(
        ts.len(),
        |k: int| [first_use_slot(ts, k, 0), first_use_slot(ts, k, 1), first_use_slot(ts, k, 2)],
    )
}

/// The points of `stl` are numbered in the order in which the triangles first
/// use them, and each is used.
pub open spec fn numbered_by_first_use(stl: BinaryStlFile) -> bool {
    let ts = stl.triangles@;
    let fs = first_use_found(ts);
    &&& forall|k: int, s: int|
        0 <= k < ts.len() && 0 <= s < 3 ==> #[trigger] resolved_index(fs[k], points_before(fs, k), s)
            == vertex_of(ts[k], s)
    &&& stl.points.len() == points_before(fs, ts.len() as int)
}

/// The number of new points among the vertices before `s` of a triangle.
pub open spec fn new_before(f: [Option<usize>; 3], s: int) -> nat {
    (if s >= 1 {
        new_count(f@[0])
    } else {
        0
    }) + (if s >= 2 {
        new_count(f@[1])
    } else {
        0
    })
}

proof fn lemma_points_before_monotone(fs: Seq<[Option<usize>; 3]>, j: int, k: int)
    requires
        0 <= j <= k,
    ensures
        points_before(fs, j) <= points_before(fs, k),
    decreases k - j,
{
    if j < k {
        lemma_points_before_monotone(fs, j, k - 1);
    }
}

proof fn lemma_first_use_bound(stl: BinaryStlFile, k: int, s: int)
    requires
        numbered_by_first_use(stl),
        0 <= k < stl.triangles.len(),
        0 <= s < 3,
    ensures
        ({
            let fs = first_use_found(stl.triangles@);
            &&& (vertex_of(stl.triangles@[k], s) as int) < points_before(fs, k) + new_before(fs[k], s)
                + new_count(fs[k]@[s])
            &&& fs[k]@[s] is Some ==> (vertex_of(stl.triangles@[k], s) as int) < points_before(fs, k)
                + new_before(fs[k], s)
        }),
    decreases 3 * k + s,
{
    let ts = stl.triangles@;
    let fs = first_use_found(ts);
    let v = vertex_of(ts[k], s);
    let fk = fs[k];
    assert(fk@[0] == first_use_slot(ts, k, 0));
    assert(fk@[1] == first_use_slot(ts, k, 1));
    assert(fk@[2] == first_use_slot(ts, k, 2));
    assert(resolved_index(fs[k], points_before(fs, k), s) == v);
    if seen_before(ts, k, s, v) {
        if exists|s2: int| 0 <= s2 < s && #[trigger] vertex_of(ts[k], s2) == v {
            let s2 = choose|s2: int| 0 <= s2 < s && #[trigger] vertex_of(ts[k], s2) == v;
            lemma_first_use_bound(stl, k, s2);
        } else {
            let j = choose|j: int| 0 <= j < k && #[trigger] has_vertex(ts[j], v);
            let s2 = if ts[j].v1 == v {
                0int
            } else if ts[j].v2 == v {
                1int
            } else {
                2int
            };
            assert(vertex_of(ts[j], s2) == v);
            lemma_first_use_bound(stl, j, s2);
            let fj = fs[j];
            assert(fj@[0] == first_use_slot(ts, j, 0));
            assert(fj@[1] == first_use_slot(ts, j, 1));
            assert(fj@[2] == first_use_slot(ts, j, 2));
            assert(points_before(fs, j + 1) == points_before(fs, j) + new_count(fj@[0]) + new_count(
                fj@[1],
            ) + new_count(fj@[2]));
            lemma_points_before_monotone(fs, j + 1, k);
        }
    }
}

proof fn lemma_read_points_prefix(stl: BinaryStlFile, k: int)
    requires
        numbered_by_first_use(stl),
        writable(stl),
        0 <= k <= stl.triangles.len(),
    ensures
        points_before(first_use_found(stl.triangles@), k) <= stl.points.len(),
        read_points(file_facets(stl), first_use_found(stl.triangles@), k) == stl.points@.take(
            points_before(first_use_found(stl.triangles@), k) as int,
        ),
    decreases k,
{
    let ts = stl.triangles@;
    let fs = first_use_found(ts);
    lemma_points_before_monotone(fs, k, ts.len() as int);
    if k == 0 {
        assert(stl.points@.take(0) =~= Seq::<RawPoint>::empty());
    } else {
        let j = k - 1;
        lemma_read_points_prefix(stl, j);
        let fj = fs[j];
        let pb = points_before(fs, j);
        let t = ts[j];
        let ff = file_facets(stl);
        assert(ff[j] == facet_of(stl, t));
        assert(fj@[0] == first_use_slot(ts, j, 0));
        assert(fj@[1] == first_use_slot(ts, j, 1));
        assert(fj@[2] == first_use_slot(ts, j, 2));
        assert(resolved_index(fj, pb, 0) == vertex_of(t, 0));
        assert(resolved_index(fj, pb, 1) == vertex_of(t, 1));
        assert(resolved_index(fj, pb, 2) == vertex_of(t, 2));
        assert(t.v1 < stl.points.len() && t.v2 < stl.points.len() && t.v3 < stl.points.len());
        let corners = facet_corners(ff[j]);
        assert(corners@[0] == stl.points@[t.v1 as int]);
        assert(corners@[1] == stl.points@[t.v2 as int]);
        assert(corners@[2] == stl.points@[t.v3 as int]);
        assert(new_points(corners, fj) =~= stl.points@.subrange(pb as int, points_before(fs, k) as int));
        assert(read_points(ff, fs, k) =~= stl.points@.take(points_before(fs, k) as int));
    }
}

/// Reading back a written mesh whose points are numbered in the order the
/// triangles first use them, with the point indices that all-different points
/// give: every index is valid for `read_mesh`, and the points read are the
/// points of the mesh, in the same order (the triangles read then have the
/// mesh's vertices, normals and attribute counts, by the contract of
/// `read_mesh`).
pub proof fn lemma_read_mesh_after_write(stl: BinaryStlFile)
    requires
        writable(stl),
        numbered_by_first_use(stl),
    ensures
        forall|k: int|
            0 <= k < stl.triangles.len() ==> found_valid(
                #[trigger] first_use_found(stl.triangles@)[k],
                points_before(first_use_found(stl.triangles@), k),
            ),
        read_points(
            file_facets(stl),
            first_use_found(stl.triangles@),
            stl.triangles.len() as int,
        ) == stl.points@,
        forall|k: int, s: int|
            0 <= k < stl.triangles.len() && 0 <= s < 3 ==> #[trigger] resolved_index(
                first_use_found(stl.triangles@)[k],
                points_before(first_use_found(stl.triangles@), k),
                s,
            ) == vertex_of(stl.triangles@[k], s),
{
    let ts = stl.triangles@;
    let fs = first_use_found(ts);
    assert forall|k: int| 0 <= k < ts.len() implies found_valid(
        #[trigger] fs[k],
        points_before(fs, k),
    ) by {
        lemma_first_use_bound(stl, k, 0);
        lemma_first_use_bound(stl, k, 1);
        lemma_first_use_bound(stl, k, 2);
        assert(fs[k]@[0] == first_use_slot(ts, k, 0));
        assert(fs[k]@[1] == first_use_slot(ts, k, 1));
        assert(fs[k]@[2] == first_use_slot(ts, k, 2));
    }
    lemma_read_points_prefix(stl, ts.len() as int);
    assert(stl.points@.take(stl.points.len() as int) =~= stl.points@);
}

/// A mesh can be written exactly when its header counts its triangles and
/// every vertex index names a point; in particular a well-formed mesh whose
/// header counts its triangles can be written, however many points it has.
pub proof fn lemma_writable_iff(stl: BinaryStlFile)
    ensures
        writable(stl) <==> {
            &&& stl.header.num_triangles == stl.triangles.len()
            &&& forall|i: int|
                0 <= i < stl.triangles.len() ==> {
                    &&& (#[trigger] stl.triangles@[i]).v1 < stl.points.len()
                    &&& stl.triangles@[i].v2 < stl.points.len()
                    &&& stl.triangles@[i].v3 < stl.points.len()
                }
        },
        well_formed(stl) && stl.header.num_triangles == stl.triangles.len() ==> writable(stl),
{
}

} // verus!
