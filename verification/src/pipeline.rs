//! The three stages in a row: from a sampled solid to the bytes of its file.
use crate::binary32::floor;
use crate::point_cloud::{
    configuration_error, is_cloud, is_ring, layer_count, lemma_cloud_unique, ring_length, rings,
    ConfigurationError, Point,
};
use crate::stl::{encode, lemma_encode_len, CapacityError};
use crate::triangles::{
    is_surface, lemma_surface_unique, lemma_triangle_count, shape_error, triangle_count,
    ShapeError, Triangle,
};
use vstd::prelude::*;

verus! {

/// Why no file was made.
#[derive(Clone, Copy, Debug, PartialEq, Eq)]
pub enum Error {
    /// The grid cannot be sampled.
    Configuration(ConfigurationError),
    /// The sampled cloud cannot be turned into a surface.
    Shape(ShapeError),
    /// The surface has more triangles than a file can hold.
    Capacity(CapacityError),
}

/// The number of triangles in the surface of a grid of `layers` rings of
/// `length` points each.
pub open spec fn surface_size(layers: int, length: int) -> int {
    (layers - 1) * length * 2
}

/// Why no file is made of a configuration, if there is a reason. A
/// configuration that cannot be sampled is reported first, then a grid of one
/// ring only, and then a surface that is too large for a file.
pub open spec fn failure(
    angular_resolution: i32,
    height_max: u32,
    height_step: u32,
    quotient: u32,
) -> Option<Error> {
    let size = surface_size(layer_count(quotient), ring_length(angular_resolution));
    match configuration_error(angular_resolution, height_max, height_step, quotient) {
        Some(e) => Some(Error::Configuration(e)),
        None => if layer_count(quotient) < 2 {
            Some(Error::Shape(ShapeError::TooFewRings))
        } else if size > u32::MAX {
            Some(Error::Capacity(CapacityError { triangles: size as usize }))
        } else {
            None
        },
    }
}

/// Whether `data` is the file of the solid: there is a cloud sampled on the
/// grid, and a surface of that cloud, of which `data` is the layout.
pub open spec fn is_file_of<S: Fn(u32, u32) -> Point, N: Fn(Point, Point, Point) -> Point>(
    sample: S,
    normal: N,
    layers: int,
    length: int,
    data: Seq<u8>,
) -> bool {
    exists|cloud: Seq<Seq<Point>>, mesh: Seq<Triangle>|
        {
            &&& is_cloud(sample, layers, length, cloud)
            &&& #[trigger] is_surface(cloud, normal, mesh)
            &&& data == encode(mesh)
        }
}

/// A file of a grid of `layers` rings of `length` points has 84 bytes and
/// fifty more for each of its `(layers - 1) * length * 2` triangles.
pub proof fn lemma_file_len<S: Fn(u32, u32) -> Point, N: Fn(Point, Point, Point) -> Point>(
    sample: S,
    normal: N,
    layers: int,
    length: int,
    data: Seq<u8>,
)
    requires
        layers >= 2,
        length >= 1,
        is_file_of(sample, normal, layers, length, data),
    ensures
        data.len() == 80 + 4 + 50 * surface_size(layers, length),
{
    let (cloud, mesh) = choose|cloud: Seq<Seq<Point>>, mesh: Seq<Triangle>|
        {
            &&& is_cloud(sample, layers, length, cloud)
            &&& #[trigger] is_surface(cloud, normal, mesh)
            &&& data == encode(mesh)
        };
    assert forall|i: int| 0 <= i < layers implies (#[trigger] cloud[i]).len() == length by {
        assert(is_ring(sample, i as u32, length, cloud[i]));
    }
    lemma_triangle_count(cloud, layers, length);
    lemma_encode_len(mesh);
}

/// The whole run is repeatable: with a `sample` and a `normal` that each
/// return one value only for what they are given, a grid has one file only,
/// byte for byte.
pub proof fn lemma_file_unique<S: Fn(u32, u32) -> Point, N: Fn(Point, Point, Point) -> Point>(
    sample: S,
    normal: N,
    layers: int,
    length: int,
    a: Seq<u8>,
    b: Seq<u8>,
)
    requires
        crate::point_cloud::is_single_valued(sample),
        crate::triangles::is_single_valued(normal),
        is_file_of(sample, normal, layers, length, a),
        is_file_of(sample, normal, layers, length, b),
    ensures
        a == b,
{
    let (cloud_a, mesh_a) = choose|cloud: Seq<Seq<Point>>, mesh: Seq<Triangle>|
        {
            &&& is_cloud(sample, layers, length, cloud)
            &&& #[trigger] is_surface(cloud, normal, mesh)
            &&& a == encode(mesh)
        };
    let (cloud_b, mesh_b) = choose|cloud: Seq<Seq<Point>>, mesh: Seq<Triangle>|
        {
            &&& is_cloud(sample, layers, length, cloud)
            &&& #[trigger] is_surface(cloud, normal, mesh)
            &&& b == encode(mesh)
        };
    lemma_cloud_unique(sample, layers, length, cloud_a, cloud_b);
    lemma_surface_unique(cloud_a, normal, mesh_a, mesh_b);
}

/// Samples a solid, joins the samples into a surface and lays the surface out
/// as a binary STL file.
///
/// `sample` and `normal` are as for [`crate::point_cloud::build`] and
/// [`crate::triangles::build`], and so are the four numbers. Nothing is
/// returned but a whole file or the reason why there is none.
pub fn generate<S: Fn(u32, u32) -> Point, N: Fn(Point, Point, Point) -> Point>(
    sample: S,
    normal: N,
    angular_resolution: i32,
    height_max: u32,
    height_step: u32,
    quotient: u32,
) -> (result: Result<Vec<u8>, Error>)
    requires
        forall|i: u32, j: u32| call_requires(sample, (i, j)),
        forall|a: Point, b: Point, c: Point| call_requires(normal, (a, b, c)),
    ensures
        result is Ok <==> failure(angular_resolution, height_max, height_step, quotient) is None,
        result matches Ok(data) ==> {
            &&& is_file_of(
                sample,
                normal,
                layer_count(quotient),
                ring_length(angular_resolution),
                data@,
            )
            &&& data@.len() == 80 + 4 + 50 * (floor(quotient) * (2 * angular_resolution) * 2)
        },
        result matches Err(e) ==> failure(angular_resolution, height_max, height_step, quotient)
            == Some(e),
{
    let ghost layers = layer_count(quotient);
    let ghost length = ring_length(angular_resolution);
    let points = match crate::point_cloud::build(
        sample,
        angular_resolution,
        height_max,
        height_step,
        quotient,
    ) {
        Ok(points) => points,
        Err(e) => {
            return Err(Error::Configuration(e));
        },
    };
    let ghost cloud = rings(points);
    proof {
        assert forall|i: int| 0 <= i < layers implies (#[trigger] cloud[i]).len() == length by {
            assert(is_ring(sample, i as u32, length, cloud[i]));
        }
        if layers >= 2 {
            lemma_triangle_count(cloud, layers, length);
        }
    }
    let triangles = match crate::triangles::build(points, normal) {
        Ok(triangles) => triangles,
        Err(e) => {
            return Err(Error::Shape(e));
        },
    };
    let ghost mesh = triangles@;
    match crate::stl::build(triangles) {
        Ok(data) => {
            assert(is_surface(cloud, normal, mesh));
            Ok(data)
        },
        Err(e) => Err(Error::Capacity(e)),
    }
}

} // verus!
