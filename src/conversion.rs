//! How each kind of collider shape is gathered as input geometry, and which
//! area an affector's geometry carries.
use vstd::prelude::*;

verus! {

/// The collider shapes an affecting entity may have.
#[derive(Clone, Copy, Debug, PartialEq, Eq, Structural)]
pub enum ColliderShape {
    Ball,
    Cuboid,
    Capsule,
    TriMesh,
    HeightField,
    ConvexPolyhedron,
    Cylinder,
    Cone,
    RoundCuboid,
    RoundCylinder,
    RoundCone,
    RoundConvexPolyhedron,
    Triangle,
    RoundTriangle,
    Compound,
    HalfSpace,
    Polyline,
    Segment,
}

/// Analytic shapes that are turned into triangles by their parameters.
#[derive(Clone, Copy, Debug, PartialEq, Eq, Structural)]
pub enum PrimitiveKind {
    Ball,
    Cuboid,
    Capsule,
    Cylinder,
    Cone,
    Triangle,
}

/// The form in which a shape's geometry is gathered for voxelization.
#[derive(Clone, Copy, Debug, PartialEq, Eq, Structural)]
pub enum GeometrySource {
    /// An analytic primitive; a rounded shape is gathered as its inner shape.
    Primitive(PrimitiveKind),
    /// A triangle list: a triangle mesh, or a convex polyhedron as triangles.
    TriangleMesh,
    /// Raw heightfield samples, gathered apart from the other geometry.
    HeightField,
}

pub open spec fn source_of(shape: ColliderShape) -> Option<GeometrySource> {
    match shape {
        ColliderShape::Ball => Some(GeometrySource::Primitive(PrimitiveKind::Ball)),
        ColliderShape::Cuboid | ColliderShape::RoundCuboid => Some(
            GeometrySource::Primitive(PrimitiveKind::Cuboid),
        ),
        ColliderShape::Capsule => Some(GeometrySource::Primitive(PrimitiveKind::Capsule)),
        ColliderShape::Cylinder | ColliderShape::RoundCylinder => Some(
            GeometrySource::Primitive(PrimitiveKind::Cylinder),
        ),
        ColliderShape::Cone | ColliderShape::RoundCone => Some(
            GeometrySource::Primitive(PrimitiveKind::Cone),
        ),
        ColliderShape::Triangle | ColliderShape::RoundTriangle => Some(
            GeometrySource::Primitive(PrimitiveKind::Triangle),
        ),
        ColliderShape::TriMesh | ColliderShape::ConvexPolyhedron
        | ColliderShape::RoundConvexPolyhedron => Some(GeometrySource::TriangleMesh),
        ColliderShape::HeightField => Some(GeometrySource::HeightField),
        ColliderShape::Compound | ColliderShape::HalfSpace | ColliderShape::Polyline
        | ColliderShape::Segment => None,
    }
}

/// How `shape` is gathered; `None` for shapes that are skipped (compounds,
/// half-spaces, polylines and segments).
pub fn geometry_source(shape: ColliderShape) -> (r: Option<GeometrySource>)
    ensures
        r == source_of(shape),
{
    match shape {
        ColliderShape::Ball => Some(GeometrySource::Primitive(PrimitiveKind::Ball)),
        ColliderShape::Cuboid | ColliderShape::RoundCuboid => Some(
            GeometrySource::Primitive(PrimitiveKind::Cuboid),
        ),
        ColliderShape::Capsule => Some(GeometrySource::Primitive(PrimitiveKind::Capsule)),
        ColliderShape::Cylinder | ColliderShape::RoundCylinder => Some(
            GeometrySource::Primitive(PrimitiveKind::Cylinder),
        ),
        ColliderShape::Cone | ColliderShape::RoundCone => Some(
            GeometrySource::Primitive(PrimitiveKind::Cone),
        ),
        ColliderShape::Triangle | ColliderShape::RoundTriangle => Some(
            GeometrySource::Primitive(PrimitiveKind::Triangle),
        ),
        ColliderShape::TriMesh | ColliderShape::ConvexPolyhedron
        | ColliderShape::RoundConvexPolyhedron => Some(GeometrySource::TriangleMesh),
        ColliderShape::HeightField => Some(GeometrySource::HeightField),
        ColliderShape::Compound | ColliderShape::HalfSpace | ColliderShape::Polyline
        | ColliderShape::Segment => None,
    }
}

/// The area id carried by an affector's geometry. An entity without an area
/// tag is walkable with area 0; a tag of `None` makes it not walkable.
pub fn affector_area(area_type: Option<Option<u16>>) -> (r: Option<u16>)
    ensures
        r == match area_type {
            None => Some(0u16),
            Some(a) => a,
        },
{
    match area_type {
        None => Some(0),
        Some(a) => a,
    }
}

} // verus!
