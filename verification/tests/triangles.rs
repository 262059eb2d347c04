use polar_stl::point_cloud::Point;
use polar_stl::triangles::{build, check_shape, triangle_from_points, ShapeError, Triangle};

fn at(x: f32, y: f32, z: f32) -> Point {
    Point { x: x.to_bits(), y: y.to_bits(), z: z.to_bits() }
}

fn coordinates(p: Point) -> (f32, f32, f32) {
    (f32::from_bits(p.x), f32::from_bits(p.y), f32::from_bits(p.z))
}

/// The cross product of the two edges that leave the first vertex, not
/// scaled to unit length.
fn cross(v0: Point, v1: Point, v2: Point) -> Point {
    let (v0, v1, v2) = (coordinates(v0), coordinates(v1), coordinates(v2));
    let a = (v1.0 - v0.0, v1.1 - v0.1, v1.2 - v0.2);
    let b = (v2.0 - v0.0, v2.1 - v0.1, v2.2 - v0.2);
    at(a.1 * b.2 - a.2 * b.1, a.2 * b.0 - a.0 * b.2, a.0 * b.1 - a.1 * b.0)
}

/// A point that tells its place: ring `i`, angular index `j`.
fn tag(i: usize, j: usize) -> Point {
    Point { x: i as u32, y: j as u32, z: 1000 * i as u32 + j as u32 }
}

fn tagged_cloud(rings: usize, length: usize) -> Vec<Vec<Point>> {
    (0..rings).map(|i| (0..length).map(|j| tag(i, j)).collect()).collect()
}

fn first_vertex(v0: Point, _v1: Point, _v2: Point) -> Point {
    v0
}

#[test]
fn square_tube_of_two_rings_gives_four_triangles_in_order() {
    let cloud = tagged_cloud(2, 2);
    let mesh = build(cloud, first_vertex).unwrap();
    let corners: Vec<(Point, Point, Point)> = mesh.iter().map(|t| (t.v0, t.v1, t.v2)).collect();
    assert_eq!(
        corners,
        vec![
            (tag(0, 0), tag(0, 1), tag(1, 0)),
            (tag(0, 1), tag(1, 1), tag(1, 0)),
            (tag(0, 1), tag(0, 0), tag(1, 1)),
            (tag(0, 0), tag(1, 0), tag(1, 1)),
        ]
    );
}

#[test]
fn every_quad_is_split_along_the_same_diagonal() {
    let rings = 4;
    let length = 5;
    let mesh = build(tagged_cloud(rings, length), first_vertex).unwrap();
    assert_eq!(mesh.len(), (rings - 1) * length * 2);
    for i in 0..rings - 1 {
        for j in 0..length {
            let next = (j + 1) % length;
            let (low, low_next) = (tag(i, j), tag(i, next));
            let (high, high_next) = (tag(i + 1, j), tag(i + 1, next));
            let first = mesh[2 * (i * length + j)];
            let second = mesh[2 * (i * length + j) + 1];
            assert_eq!((first.v0, first.v1, first.v2), (low, low_next, high));
            assert_eq!((second.v0, second.v1, second.v2), (low_next, high_next, high));
        }
    }
}

#[test]
fn triangle_count_is_twice_the_points_below_the_top_ring() {
    for (rings, length) in [(2, 1), (2, 2), (2, 7), (3, 4), (10, 3), (6, 12)] {
        let mesh = build(tagged_cloud(rings, length), first_vertex).unwrap();
        assert_eq!(mesh.len(), (rings - 1) * length * 2);
    }
}

#[test]
fn normal_is_what_the_function_returns_for_the_vertices_in_order() {
    let mesh = build(tagged_cloud(3, 4), |v0: Point, v1: Point, v2: Point| Point {
        x: v0.z,
        y: v1.z,
        z: v2.z,
    })
    .unwrap();
    for t in mesh {
        assert_eq!(t.normal, Point { x: t.v0.z, y: t.v1.z, z: t.v2.z });
    }
}

#[test]
fn cross_product_normal_is_not_scaled() {
    let lower = vec![at(0.0, 0.0, 0.0), at(2.0, 0.0, 0.0)];
    let upper = vec![at(0.0, 0.0, 3.0), at(2.0, 0.0, 3.0)];
    let mesh = build(vec![lower, upper], cross).unwrap();
    assert_eq!(coordinates(mesh[0].normal), (0.0, -6.0, 0.0));
    assert_eq!(coordinates(mesh[1].normal), (0.0, -6.0, 0.0));
    assert_eq!(coordinates(mesh[2].normal), (0.0, 6.0, 0.0));
    assert_eq!(coordinates(mesh[3].normal), (0.0, 6.0, 0.0));
}

#[test]
fn ring_of_one_point_gives_two_flat_triangles() {
    let mesh = build(tagged_cloud(2, 1), first_vertex).unwrap();
    let corners: Vec<(Point, Point, Point)> = mesh.iter().map(|t| (t.v0, t.v1, t.v2)).collect();
    assert_eq!(
        corners,
        vec![(tag(0, 0), tag(0, 0), tag(1, 0)), (tag(0, 0), tag(1, 0), tag(1, 0))]
    );
}

#[test]
fn triangle_from_points_keeps_the_points_in_order() {
    let t = triangle_from_points(tag(0, 0), tag(0, 1), tag(1, 0), &first_vertex);
    assert_eq!(
        t,
        Triangle { normal: tag(0, 0), v0: tag(0, 0), v1: tag(0, 1), v2: tag(1, 0) }
    );
}

#[test]
fn fewer_than_two_rings_is_a_shape_error() {
    assert_eq!(build(Vec::new(), first_vertex), Err(ShapeError::TooFewRings));
    assert_eq!(build(tagged_cloud(1, 3), first_vertex), Err(ShapeError::TooFewRings));
    assert_eq!(build(vec![Vec::new()], first_vertex), Err(ShapeError::TooFewRings));
}

#[test]
fn empty_rings_are_a_shape_error() {
    assert_eq!(build(tagged_cloud(2, 0), first_vertex), Err(ShapeError::EmptyRing));
    assert_eq!(
        build(vec![Vec::new(), vec![tag(1, 0)]], first_vertex),
        Err(ShapeError::EmptyRing)
    );
}

#[test]
fn rings_of_differing_lengths_are_a_shape_error() {
    let mut cloud = tagged_cloud(3, 4);
    cloud[2].pop();
    assert_eq!(build(cloud, first_vertex), Err(ShapeError::UnequalRings));
    let mut cloud = tagged_cloud(3, 4);
    cloud[1].push(tag(1, 4));
    assert_eq!(build(cloud, first_vertex), Err(ShapeError::UnequalRings));
    let mut cloud = tagged_cloud(2, 2);
    cloud[1].clear();
    assert_eq!(build(cloud, first_vertex), Err(ShapeError::UnequalRings));
}

#[test]
fn check_shape_accepts_equal_rings() {
    assert_eq!(check_shape(&tagged_cloud(2, 1)), None);
    assert_eq!(check_shape(&tagged_cloud(5, 8)), None);
}

#[test]
fn same_cloud_gives_the_same_mesh() {
    let cloud: Vec<Vec<Point>> = (0..4)
        .map(|i| (0..6).map(|j| at(j as f32 * 0.7, i as f32 - 1.5, (i * j) as f32)).collect())
        .collect();
    assert_eq!(build(cloud.clone(), cross), build(cloud, cross));
}
