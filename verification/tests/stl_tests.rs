use geokernel::bo::mesh::{read_mesh, BinaryStlFile, BinaryStlHeader, MeshTriangle, RawPoint};
use geokernel::bo::stl::{parse_stl, write_stl, StlData, StlError, StlFacet};

const EPS: f32 = 0.000001;

fn eq_f32(a: f32, b: f32) -> bool {
    (a < b + EPS) & (a > b - EPS)
}

fn raw(x: f32, y: f32, z: f32) -> RawPoint {
    RawPoint { x: x.to_bits(), y: y.to_bits(), z: z.to_bits() }
}

fn same_point(a: &RawPoint, b: &RawPoint) -> bool {
    eq_f32(f32::from_bits(a.x), f32::from_bits(b.x))
        & eq_f32(f32::from_bits(a.y), f32::from_bits(b.y))
        & eq_f32(f32::from_bits(a.z), f32::from_bits(b.z))
}

// For each corner of each triangle in turn, the first point equal to it
// among the corners met so far that became points.
fn resolve_all(facets: &[StlFacet]) -> Vec<[Option<usize>; 3]> {
    let mut points: Vec<RawPoint> = Vec::new();
    let mut found = Vec::new();
    for f in facets {
        let mut fk = [None; 3];
        for (s, c) in [f.v1, f.v2, f.v3].iter().enumerate() {
            match points.iter().position(|p| same_point(p, c)) {
                Some(i) => fk[s] = Some(i),
                None => points.push(*c),
            }
        }
        found.push(fk);
    }
    found
}

fn read_stl(bytes: &[u8]) -> Result<BinaryStlFile, StlError> {
    let data: StlData = parse_stl(bytes)?;
    let found = resolve_all(&data.facets);
    Ok(read_mesh(&data, &found))
}

fn same_triangle(a: &MeshTriangle, b: &MeshTriangle) -> bool {
    same_point(&a.normal, &b.normal) && a.same_vertices_and_attr(b)
}

fn sample_file() -> BinaryStlFile {
    BinaryStlFile {
        header: BinaryStlHeader { header: [0u8; 80], num_triangles: 1 },
        triangles: vec![MeshTriangle {
            normal: raw(0f32, 1f32, 0f32),
            v1: 0,
            v2: 1,
            v3: 2,
            attr_byte_count: 0,
            neighbors: Vec::new(),
        }],
        points: vec![raw(0f32, 0f32, 0f32), raw(0f32, 0f32, 1f32), raw(1f32, 0f32, 1f32)],
    }
}

#[test]
fn write_read() {
    // Make sure we can write and read a simple file.
    let file = sample_file();

    let buffer = write_stl(&file);

    match read_stl(&buffer) {
        Ok(stl) => {
            assert!(stl.header.num_triangles == file.header.num_triangles);
            assert!(stl.triangles.len() == 1);
            assert!(same_triangle(&stl.triangles[0], &file.triangles[0]))
        }
        Err(_) => panic!(),
    }
}

#[test]
fn written_bytes_layout() {
    let mut file = sample_file();
    file.header.header[0] = 7;
    file.header.header[79] = 9;
    file.triangles[0].attr_byte_count = 0x0102;
    let bytes = file.write_stl();
    assert_eq!(bytes.len(), 84 + 50);
    assert_eq!(bytes[0], 7);
    assert_eq!(bytes[79], 9);
    assert_eq!(&bytes[80..84], &[1, 0, 0, 0]);
    // normal (0, 1, 0): 1.0f32 is 0x3f800000
    assert_eq!(&bytes[84..96], &[0, 0, 0, 0, 0, 0, 0x80, 0x3f, 0, 0, 0, 0]);
    // third vertex (1, 0, 1)
    assert_eq!(&bytes[120..132], &[0, 0, 0x80, 0x3f, 0, 0, 0, 0, 0, 0, 0x80, 0x3f]);
    assert_eq!(&bytes[132..134], &[0x02, 0x01]);
}

#[test]
fn read_after_write_gives_facets_back() {
    let file = sample_file();
    let bytes = write_stl(&file);
    let data = parse_stl(&bytes).unwrap();
    assert_eq!(data.header.header, [0u8; 80]);
    assert_eq!(data.header.num_triangles, 1);
    assert_eq!(data.facets.len(), 1);
    let f = data.facets[0];
    assert_eq!(
        f,
        StlFacet {
            normal: raw(0f32, 1f32, 0f32),
            v1: raw(0f32, 0f32, 0f32),
            v2: raw(0f32, 0f32, 1f32),
            v3: raw(1f32, 0f32, 1f32),
            attr_byte_count: 0,
        }
    );
}

#[test]
fn write_after_read_gives_bytes_back() {
    let mut bytes: Vec<u8> = (0u8..80).collect();
    bytes.extend_from_slice(&[2, 0, 0, 0]);
    for k in 0u8..100 {
        bytes.push(k.wrapping_mul(37));
    }
    // trailing bytes after the last triangle are ignored
    bytes.extend_from_slice(&[0xaa, 0xbb]);
    let data = parse_stl(&bytes).unwrap();
    assert_eq!(data.facets.len(), 2);
    // every corner is taken as a new point
    let found = vec![[None, None, None]; data.facets.len()];
    let stl = read_mesh(&data, &found);
    let again = write_stl(&stl);
    assert_eq!(&again[..], &bytes[..184]);
}

#[test]
fn short_header_is_refused() {
    assert!(matches!(parse_stl(&[0u8; 79]), Err(StlError::ShortHeader)));
    assert!(matches!(parse_stl(&[]), Err(StlError::ShortHeader)));
}

#[test]
fn missing_count_is_refused() {
    assert!(matches!(parse_stl(&[0u8; 80]), Err(StlError::UnexpectedEof)));
    assert!(matches!(parse_stl(&[0u8; 83]), Err(StlError::UnexpectedEof)));
}

#[test]
fn missing_triangle_is_refused() {
    let mut bytes = vec![0u8; 80];
    bytes.extend_from_slice(&[2, 0, 0, 0]);
    bytes.extend_from_slice(&[0u8; 99]);
    assert!(matches!(parse_stl(&bytes), Err(StlError::UnexpectedEof)));
    bytes.push(0);
    assert!(parse_stl(&bytes).is_ok());
}

#[test]
fn empty_file_reads() {
    let mut bytes = vec![1u8; 80];
    bytes.extend_from_slice(&[0, 0, 0, 0]);
    let data = parse_stl(&bytes).unwrap();
    assert_eq!(data.header.num_triangles, 0);
    assert!(data.facets.is_empty());
    assert_eq!(data.header.header, [1u8; 80]);
}

#[test]
fn count_is_little_endian() {
    let mut bytes = vec![0u8; 80];
    bytes.extend_from_slice(&[0x01, 0x01, 0, 0]);
    // 257 triangles announced, none present
    assert!(matches!(parse_stl(&bytes), Err(StlError::UnexpectedEof)));
    bytes.extend(std::iter::repeat(0u8).take(257 * 50));
    let data = parse_stl(&bytes).unwrap();
    assert_eq!(data.header.num_triangles, 257);
    assert_eq!(data.facets.len(), 257);
}

#[test]
fn attribute_count_is_little_endian() {
    let mut bytes = vec![0u8; 80];
    bytes.extend_from_slice(&[1, 0, 0, 0]);
    bytes.extend_from_slice(&[0u8; 48]);
    bytes.extend_from_slice(&[0x34, 0x12]);
    let data = parse_stl(&bytes).unwrap();
    assert_eq!(data.facets[0].attr_byte_count, 0x1234);
}

#[test]
fn coordinates_are_little_endian() {
    let mut bytes = vec![0u8; 80];
    bytes.extend_from_slice(&[1, 0, 0, 0]);
    // normal x = 0x04030201, then zeros; first vertex y = 2.5f32
    bytes.extend_from_slice(&[1, 2, 3, 4]);
    bytes.extend_from_slice(&[0u8; 8]);
    bytes.extend_from_slice(&[0u8; 4]);
    bytes.extend_from_slice(&2.5f32.to_le_bytes());
    bytes.extend_from_slice(&[0u8; 30]);
    let data = parse_stl(&bytes).unwrap();
    assert_eq!(data.facets[0].normal.x, 0x04030201);
    assert_eq!(f32::from_bits(data.facets[0].v1.y), 2.5);
}

#[test]
fn read_mesh_shares_points_and_links_neighbours() {
    // two triangles sharing the edge (1,0,0)-(0,1,0), written as raw facets
    let mut bytes = vec![0u8; 80];
    bytes.extend_from_slice(&[2, 0, 0, 0]);
    let tris = [
        [raw(0., 0., 1.), raw(0., 0., 0.), raw(1., 0., 0.), raw(0., 1., 0.)],
        [raw(0., 0., 1.), raw(1., 0., 0.), raw(1., 1., 0.), raw(0., 1., 0.)],
    ];
    for t in tris.iter() {
        for p in t.iter() {
            for c in [p.x, p.y, p.z] {
                bytes.extend_from_slice(&c.to_le_bytes());
            }
        }
        bytes.extend_from_slice(&[0, 0]);
    }
    let stl = read_stl(&bytes).unwrap();
    assert_eq!(stl.points.len(), 4);
    assert_eq!((stl.triangles[1].v1, stl.triangles[1].v2, stl.triangles[1].v3), (1, 3, 2));
    assert_eq!(stl.triangles[0].neighbors, vec![1, 1]);
    assert_eq!(stl.triangles[1].neighbors, vec![0, 0]);
    assert_eq!(stl.header.num_triangles, 2);
}

#[test]
fn mesh_read_back_after_write() {
    // points numbered in order of first use, all different
    let mut file = BinaryStlFile::new();
    file.add_triangle(raw(0., 0., 1.), [raw(0., 0., 0.), raw(1., 0., 0.), raw(0., 1., 0.)], [None, None, None]);
    file.add_triangle(raw(0., 0., 1.), [raw(1., 0., 0.), raw(1., 1., 0.), raw(0., 1., 0.)], [Some(1), None, Some(2)]);
    let bytes = file.write_stl();
    let stl = read_stl(&bytes).unwrap();
    assert_eq!(stl.header.header, file.header.header);
    assert_eq!(stl.header.num_triangles, file.header.num_triangles);
    assert_eq!(stl.points, file.points);
    assert_eq!(stl.triangles.len(), file.triangles.len());
    for k in 0..file.triangles.len() {
        assert!(same_triangle(&stl.triangles[k], &file.triangles[k]));
        assert_eq!(stl.triangles[k].neighbors, file.triangles[k].neighbors);
    }
}
