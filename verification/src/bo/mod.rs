//! Base objects: the indexed triangle mesh and its binary STL form.

pub mod mesh;
pub mod stl;

pub use self::mesh::BinaryStlFile;
pub use self::mesh::BinaryStlHeader;
pub use self::mesh::Mesh;
pub use self::mesh::MeshTriangle;
pub use self::mesh::RawPoint;
pub use self::mesh::add_point_to_vec;
pub use self::stl::StlData;
pub use self::stl::StlError;
pub use self::stl::StlFacet;
pub use self::stl::parse_stl;
pub use self::stl::write_stl;
