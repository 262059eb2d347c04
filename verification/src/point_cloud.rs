//! Sampling a solid on a cylindrical grid of rings.
//!
//! The grid has one ring for every whole step of height that fits below the
//! greatest height, and one more for height zero. Each ring has two samples
//! for every unit of angular resolution, so that one revolution is covered
//! once, with no point twice.
use crate::binary32::{
    floor, is_finite_non_negative, is_positive_finite, positive_finite, whole_part,
};
use vstd::prelude::*;

verus! {

/// A point in space. Each coordinate is the bit pattern of an IEEE 754
/// single-precision number.
#[derive(Clone, Copy, Debug, PartialEq, Eq)]
pub struct Point {
    pub x: u32,
    pub y: u32,
    pub z: u32,
}

/// Why a grid cannot be sampled.
#[derive(Clone, Copy, Debug, PartialEq, Eq)]
pub enum ConfigurationError {
    /// The angular resolution is zero or less.
    AngularResolution,
    /// The height step is not a finite number above zero.
    HeightStep,
    /// The greatest height is not a finite number above zero.
    HeightMax,
    /// The greatest height divided by the height step is not a finite number
    /// of at least zero, or its whole part is not below `u32::MAX`.
    LayerCount,
}

/// The rings of a point cloud, lowest first, each as the sequence of its
/// points.
pub open spec fn rings(cloud: Vec<Vec<Point>>) -> Seq<Seq<Point>> {
    Seq::new(cloud@.len(), |i: int| cloud@[i]@)
}

/// What is wrong with a configuration, if anything. The angular resolution is
/// looked at first, then the height step, the greatest height, and their
/// quotient.
pub open spec fn configuration_error(
    angular_resolution: i32,
    height_max: u32,
    height_step: u32,
    quotient: u32,
) -> Option<ConfigurationError> {
    if angular_resolution <= 0 {
        Some(ConfigurationError::AngularResolution)
    } else if !is_positive_finite(height_step) {
        Some(ConfigurationError::HeightStep)
    } else if !is_positive_finite(height_max) {
        Some(ConfigurationError::HeightMax)
    } else if !(is_finite_non_negative(quotient) && floor(quotient) < u32::MAX) {
        Some(ConfigurationError::LayerCount)
    } else {
        None
    }
}

/// The number of rings: the whole part of the quotient of greatest height
/// and height step, and one.
pub open spec fn layer_count(quotient: u32) -> int {
    floor(quotient) + 1
}

/// The number of points in every ring.
pub open spec fn ring_length(angular_resolution: i32) -> int {
    2 * angular_resolution
}

/// Whether `ring` is ring number `layer` of a grid: it has `length` points,
/// and the point at each angular index is a value that `sample` returns for
/// the layer and that index.
pub open spec fn is_ring<S: Fn(u32, u32) -> Point>(
    sample: S,
    layer: u32,
    length: int,
    ring: Seq<Point>,
) -> bool {
    &&& ring.len() == length
    &&& forall|j: int| 0 <= j < length ==> call_ensures(sample, (layer, j as u32), #[trigger] ring[j])
}

/// Whether `cloud` is the sampled grid: `layers` rings, lowest first, each a
/// ring of `length` points.
pub open spec fn is_cloud<S: Fn(u32, u32) -> Point>(
    sample: S,
    layers: int,
    length: int,
    cloud: Seq<Seq<Point>>,
) -> bool {
    &&& cloud.len() == layers
    &&& forall|i: int| 0 <= i < layers ==> is_ring(sample, i as u32, length, #[trigger] cloud[i])
}

/// Whether `sample` returns one value only for each layer and angular index.
pub open spec fn is_single_valued<S: Fn(u32, u32) -> Point>(sample: S) -> bool {
    forall|i: u32, j: u32, p: Point, q: Point|
        call_ensures(sample, (i, j), p) && call_ensures(sample, (i, j), q) ==> p == q
}

/// Sampling is repeatable: with a `sample` that returns one value only for
/// each place, a grid has one cloud only.
pub proof fn lemma_cloud_unique<S: Fn(u32, u32) -> Point>(
    sample: S,
    layers: int,
    length: int,
    a: Seq<Seq<Point>>,
    b: Seq<Seq<Point>>,
)
    requires
        is_single_valued(sample),
        is_cloud(sample, layers, length, a),
        is_cloud(sample, layers, length, b),
    ensures
        a == b,
{
    assert forall|i: int| 0 <= i < layers implies a[i] == b[i] by {
        assert(is_ring(sample, i as u32, length, a[i]));
        assert(is_ring(sample, i as u32, length, b[i]));
        assert forall|j: int| 0 <= j < length implies a[i][j] == b[i][j] by {
            assert(call_ensures(sample, (i as u32, j as u32), a[i][j]));
            assert(call_ensures(sample, (i as u32, j as u32), b[i][j]));
        }
        assert(a[i] =~= b[i]);
    }
    assert(a =~= b);
}

/// Samples one ring: the points of layer `layer` at the angular indices from
/// zero up to `length`, in that order.
pub fn build_point_ring<S: Fn(u32, u32) -> Point>(sample: &S, layer: u32, length: u32) -> (ring:
    Vec<Point>)
    requires
        forall|j: u32| j < length ==> call_requires(*sample, (layer, j)),
    ensures
        is_ring(*sample, layer, length as int, ring@),
{
    let mut ring: Vec<Point> = Vec::new();
    let mut j: u32 = 0;
    while j < length
        invariant
            j <= length,
            forall|k: u32| k < length ==> call_requires(*sample, (layer, k)),
            is_ring(*sample, layer, j as int, ring@),
        decreases length - j,
    {
        let p = sample(layer, j);
        ring.push(p);
        j += 1;
    }
    ring
}

/// Samples a solid on its grid.
///
/// `sample` gives the point of the solid at a layer and an angular index.
/// `height_max` and `height_step` are single-precision bit patterns, and
/// `quotient` is the pattern that dividing the first by the second in single
/// precision gave the caller. The configuration is refused, before anything
/// is sampled, unless the angular resolution is above zero, both heights are
/// finite and above zero, and the quotient is finite, not negative, and of a
/// whole part below `u32::MAX`.
///
/// The cloud has one ring for each layer from zero to the whole part of the
/// quotient, lowest first, and each ring has the points at the angular
/// indices from zero up to twice the angular resolution, in that order.
pub fn build<S: Fn(u32, u32) -> Point>(
    sample: S,
    angular_resolution: i32,
    height_max: u32,
    height_step: u32,
    quotient: u32,
) -> (result: Result<Vec<Vec<Point>>, ConfigurationError>)
    requires
        configuration_error(angular_resolution, height_max, height_step, quotient) is None
            ==> forall|i: u32, j: u32|
            i < layer_count(quotient) && j < ring_length(angular_resolution) ==> call_requires(
                sample,
                (i, j),
            ),
    ensures
        result is Ok <==> configuration_error(
            angular_resolution,
            height_max,
            height_step,
            quotient,
        ) is None,
        result matches Ok(cloud) ==> {
            &&& is_cloud(
                sample,
                layer_count(quotient),
                ring_length(angular_resolution),
                rings(cloud),
            )
            &&& cloud@.len() == floor(quotient) + 1
            &&& forall|i: int|
                0 <= i < cloud@.len() ==> (#[trigger] cloud@[i])@.len() == 2 * angular_resolution
        },
        result matches Err(e) ==> configuration_error(
            angular_resolution,
            height_max,
            height_step,
            quotient,
        ) == Some(e),
{
    if angular_resolution <= 0 {
        return Err(ConfigurationError::AngularResolution);
    }
    if !positive_finite(height_step) {
        return Err(ConfigurationError::HeightStep);
    }
    if !positive_finite(height_max) {
        return Err(ConfigurationError::HeightMax);
    }
    let whole = match whole_part(quotient) {
        Some(w) => w,
        None => {
            return Err(ConfigurationError::LayerCount);
        },
    };
    let layers: u32 = whole + 1;
    let length: u32 = 2 * (angular_resolution as u32);
    let mut cloud: Vec<Vec<Point>> = Vec::new();
    let mut i: u32 = 0;
    while i < layers
        invariant
            i <= layers,
            forall|a: u32, b: u32| a < layers && b < length ==> call_requires(sample, (a, b)),
            is_cloud(sample, i as int, length as int, rings(cloud)),
            cloud@.len() == i,
        decreases layers - i,
    {
        let ring = build_point_ring(&sample, i, length);
        let ghost before = rings(cloud);
        cloud.push(ring);
        proof {
            let after = rings(cloud);
            assert(after[i as int] == ring@);
            assert forall|k: int| 0 <= k < i + 1 implies is_ring(
                sample,
                k as u32,
                length as int,
                #[trigger] after[k],
            ) by {
                if k < i {
                    assert(after[k] == before[k]);
                }
            }
        }
        i += 1;
    }
    proof {
        let c = rings(cloud);
        assert forall|k: int| 0 <= k < cloud@.len() implies (#[trigger] cloud@[k])@.len() == 2
            * angular_resolution by {
            assert(c[k] == cloud@[k]@);
        }
    }
    Ok(cloud)
}

} // verus!
