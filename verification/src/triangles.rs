//! Joining neighbouring rings of points into a surface of triangles.
//!
//! Two rings that lie one above the other are joined, angular step by angular
//! step, by a quad, and each quad is cut along one fixed diagonal into two
//! triangles. Only the wall between the lowest and the highest ring is made:
//! the tube stays open at both ends.
use crate::point_cloud::{rings, Point};
use vstd::arithmetic::div_mod::lemma_fundamental_div_mod_converse;
use vstd::prelude::*;

verus! {

/// A facet: a normal and three vertices in winding order.
#[derive(Clone, Copy, Debug, PartialEq, Eq)]
pub struct Triangle {
    pub normal: Point,
    pub v0: Point,
    pub v1: Point,
    pub v2: Point,
}

/// Why a point cloud cannot be turned into a surface.
#[derive(Clone, Copy, Debug, PartialEq, Eq)]
pub enum ShapeError {
    /// There are fewer than two rings.
    TooFewRings,
    /// The lowest ring has no points.
    EmptyRing,
    /// A ring has another number of points than the lowest one.
    UnequalRings,
}

/// What is wrong with the shape of a cloud, if anything. Too few rings is
/// reported before an empty lowest ring, and that before rings of unequal
/// length.
pub open spec fn shape_error(cloud: Seq<Seq<Point>>) -> Option<ShapeError> {
    if cloud.len() < 2 {
        Some(ShapeError::TooFewRings)
    } else if cloud[0].len() == 0 {
        Some(ShapeError::EmptyRing)
    } else if exists|i: int| 0 <= i < cloud.len() && #[trigger] cloud[i].len() != cloud[0].len() {
        Some(ShapeError::UnequalRings)
    } else {
        None
    }
}

/// The number of triangles in the surface of a well-shaped cloud: two for
/// every angular step of every pair of neighbouring rings.
pub open spec fn triangle_count(cloud: Seq<Seq<Point>>) -> int {
    (cloud.len() - 1) * cloud[0].len() * 2
}

/// The three vertices of the `k`-th triangle of the surface, in winding order.
///
/// Triangles `2 * (i * m + j)` and `2 * (i * m + j) + 1`, where `m` is the ring
/// length, are the two halves of the quad between ring `i` and ring `i + 1`
/// at angular index `j`. With `low` and `low_next` the points of the lower
/// ring at `j` and at the index after it (the first, after the last), and
/// `high` and `high_next` the points above them, the halves are
/// `(low, low_next, high)` and `(low_next, high_next, high)`.
pub open spec fn vertices(cloud: Seq<Seq<Point>>, k: int) -> (Point, Point, Point) {
    let m = cloud[0].len() as int;
    let i = k / (2 * m);
    let j = (k / 2) % m;
    let next = (j + 1) % m;
    if k % 2 == 0 {
        (cloud[i][j], cloud[i][next], cloud[i + 1][j])
    } else {
        (cloud[i][next], cloud[i + 1][next], cloud[i + 1][j])
    }
}

/// Whether `t` is the `k`-th triangle of the surface of `cloud`, with a normal
/// from `normal`: its vertices are those of `vertices`, and its normal is a
/// value that `normal` returns for them.
pub open spec fn is_triangle<N: Fn(Point, Point, Point) -> Point>(
    cloud: Seq<Seq<Point>>,
    normal: N,
    k: int,
    t: Triangle,
) -> bool {
    &&& (t.v0, t.v1, t.v2) == vertices(cloud, k)
    &&& call_ensures(normal, vertices(cloud, k), t.normal)
}

/// Whether `mesh` is the surface of the well-shaped `cloud`, with normals from
/// `normal`: all its triangles, in order.
pub open spec fn is_surface<N: Fn(Point, Point, Point) -> Point>(
    cloud: Seq<Seq<Point>>,
    normal: N,
    mesh: Seq<Triangle>,
) -> bool {
    &&& mesh.len() == triangle_count(cloud)
    &&& forall|k: int| 0 <= k < mesh.len() ==> is_triangle(cloud, normal, k, #[trigger] mesh[k])
}

/// Whether `normal` returns one value only for each three points.
pub open spec fn is_single_valued<N: Fn(Point, Point, Point) -> Point>(normal: N) -> bool {
    forall|v: (Point, Point, Point), p: Point, q: Point|
        call_ensures(normal, v, p) && call_ensures(normal, v, q) ==> p == q
}

/// Triangulation is repeatable: with a `normal` that returns one value only
/// for each three points, a cloud has one surface only.
pub proof fn lemma_surface_unique<N: Fn(Point, Point, Point) -> Point>(
    cloud: Seq<Seq<Point>>,
    normal: N,
    a: Seq<Triangle>,
    b: Seq<Triangle>,
)
    requires
        is_single_valued(normal),
        is_surface(cloud, normal, a),
        is_surface(cloud, normal, b),
    ensures
        a == b,
{
    assert forall|k: int| 0 <= k < a.len() implies a[k] == b[k] by {
        assert(is_triangle(cloud, normal, k, a[k]));
        assert(is_triangle(cloud, normal, k, b[k]));
    }
    assert(a =~= b);
}

/// A cloud of at least two rings that all have the same number of points, and
/// not none, is well shaped, and its surface has two triangles for every
/// point that is not in the highest ring.
pub proof fn lemma_triangle_count(cloud: Seq<Seq<Point>>, layers: int, length: int)
    requires
        layers >= 2,
        length >= 1,
        cloud.len() == layers,
        forall|i: int| 0 <= i < layers ==> (#[trigger] cloud[i]).len() == length,
    ensures
        shape_error(cloud) is None,
        triangle_count(cloud) == (layers - 1) * length * 2,
{
}

/// Where the two halves of a quad stand in the mesh.
proof fn lemma_slot(i: int, j: int, half: int, m: int)
    requires
        0 <= i,
        0 <= j < m,
        0 <= half < 2,
    ensures
        (2 * (i * m + j) + half) / (2 * m) == i,
        ((2 * (i * m + j) + half) / 2) % m == j,
        (2 * (i * m + j) + half) % 2 == half,
{
    let k = 2 * (i * m + j) + half;
    assert(k / 2 == i * m + j);
    lemma_fundamental_div_mod_converse(i * m + j, m, i, j);
    assert(k == i * (2 * m) + (2 * j + half)) by (nonlinear_arith)
        requires
            k == 2 * (i * m + j) + half,
    ;
    lemma_fundamental_div_mod_converse(k, 2 * m, i, 2 * j + half);
}

/// Makes a triangle of three vertices in this order, with the normal that
/// `normal` gives for them.
pub fn triangle_from_points<N: Fn(Point, Point, Point) -> Point>(
    v0: Point,
    v1: Point,
    v2: Point,
    normal: &N,
) -> (t: Triangle)
    requires
        call_requires(*normal, (v0, v1, v2)),
    ensures
        t.v0 == v0,
        t.v1 == v1,
        t.v2 == v2,
        call_ensures(*normal, (v0, v1, v2), t.normal),
{
    let n = normal(v0, v1, v2);
    Triangle { normal: n, v0, v1, v2 }
}

/// Tells what is wrong with the shape of a cloud, if anything.
pub fn check_shape(points: &Vec<Vec<Point>>) -> (found: Option<ShapeError>)
    ensures
        found == shape_error(rings(*points)),
{
    let ghost cloud = rings(*points);
    let n = points.len();
    if n < 2 {
        return Some(ShapeError::TooFewRings);
    }
    let m = points[0].len();
    if m == 0 {
        return Some(ShapeError::EmptyRing);
    }
    let mut i: usize = 1;
    while i < n
        invariant
            1 <= i <= n,
            n == points@.len(),
            n == cloud.len(),
            cloud == rings(*points),
            m == cloud[0].len(),
            m > 0,
            forall|k: int| 0 <= k < i ==> #[trigger] cloud[k].len() == m,
        decreases n - i,
    {
        if points[i].len() != m {
            assert(cloud[i as int].len() != cloud[0].len());
            return Some(ShapeError::UnequalRings);
        }
        i += 1;
    }
    None
}

/// Builds the surface on which all points of a cloud lie.
///
/// `normal` gives the normal of a triangle from its three vertices in winding
/// order; what it returns is stored as it is. The cloud is refused, before
/// any triangle is made, unless it has at least two rings, all of one
/// length that is not zero.
pub fn build<N: Fn(Point, Point, Point) -> Point>(points: Vec<Vec<Point>>, normal: N) -> (result:
    Result<Vec<Triangle>, ShapeError>)
    requires
        shape_error(rings(points)) is None ==> forall|k: int|
            0 <= k < triangle_count(rings(points)) ==> call_requires(
                normal,
                #[trigger] vertices(rings(points), k),
            ),
    ensures
        result is Ok <==> shape_error(rings(points)) is None,
        result matches Ok(mesh) ==> {
            &&& is_surface(rings(points), normal, mesh@)
            &&& mesh@.len() == (points@.len() - 1) * points@[0]@.len() * 2
        },
        result matches Err(e) ==> shape_error(rings(points)) == Some(e),
{
    let ghost cloud = rings(points);
    match check_shape(&points) {
        Some(e) => {
            return Err(e);
        },
        None => {},
    }
    let n = points.len();
    let m = points[0].len();
    let mut output: Vec<Triangle> = Vec::new();
    let mut i: usize = 0;
    while i < n - 1
        invariant
            i <= n - 1,
            n == cloud.len(),
            n >= 2,
            m == cloud[0].len(),
            m > 0,
            cloud == rings(points),
            shape_error(cloud) is None,
            forall|k: int|
                0 <= k < triangle_count(cloud) ==> call_requires(
                    normal,
                    #[trigger] vertices(cloud, k),
                ),
            output@.len() == 2 * (i * m),
            forall|k: int|
                0 <= k < output@.len() ==> is_triangle(cloud, normal, k, #[trigger] output@[k]),
        decreases n - 1 - i,
    {
        let mut j: usize = 0;
        while j < m
            invariant
                i < n - 1,
                j <= m,
                n == cloud.len(),
                m == cloud[0].len(),
                m > 0,
                cloud == rings(points),
                shape_error(cloud) is None,
                forall|k: int|
                    0 <= k < triangle_count(cloud) ==> call_requires(
                        normal,
                        #[trigger] vertices(cloud, k),
                    ),
                output@.len() == 2 * (i * m + j),
                forall|k: int|
                    0 <= k < output@.len() ==> is_triangle(
                        cloud,
                        normal,
                        k,
                        #[trigger] output@[k],
                    ),
            decreases m - j,
        {
            let j_next = if j == m - 1 {
                0
            } else {
                j + 1
            };
            proof {
                assert(cloud[i as int].len() == m);
                assert(cloud[i + 1].len() == m);
                assert(j_next == (j + 1) % (m as int)) by {
                    if j == m - 1 {
                        lemma_fundamental_div_mod_converse(j + 1, m as int, 1, 0);
                    } else {
                        lemma_fundamental_div_mod_converse(j + 1, m as int, 0, j + 1);
                    }
                }
                lemma_slot(i as int, j as int, 0, m as int);
                lemma_slot(i as int, j as int, 1, m as int);
                assert(2 * (i * m + j) + 1 < triangle_count(cloud)) by (nonlinear_arith)
                    requires
                        0 <= i < n - 1,
                        0 <= j < m,
                        triangle_count(cloud) == (n - 1) * m * 2,
                ;
            }
            let low = points[i][j];
            let low_next = points[i][j_next];
            let high_next = points[i + 1][j_next];
            let high = points[i + 1][j];
            let ghost first = 2 * (i * m + j);
            assert(vertices(cloud, first) == (low, low_next, high));
            assert(vertices(cloud, first + 1) == (low_next, high_next, high));
            let tri1 = triangle_from_points(low, low_next, high, &normal);
            let tri2 = triangle_from_points(low_next, high_next, high, &normal);
            output.push(tri1);
            output.push(tri2);
            j += 1;
        }
        assert(2 * (i * m + m) == 2 * ((i + 1) * m)) by (nonlinear_arith);
        i += 1;
    }
    assert(2 * ((n - 1) * m) == (n - 1) * m * 2) by (nonlinear_arith);
    Ok(output)
}

} // verus!
