use polar_stl::point_cloud::{build, build_point_ring, ConfigurationError, Point};
use std::cell::RefCell;
use std::f32::consts::PI;

fn bits(x: f32) -> u32 {
    x.to_bits()
}

/// A point that tells for which layer and angular index it was asked.
fn tag(layer: u32, index: u32) -> Point {
    Point { x: layer, y: index, z: 7 }
}

/// The point of a solid of the given radius at a place of the grid.
fn polar(
    radius: fn(f32, f32) -> f32,
    angular_resolution: i32,
    height_max: f32,
    height_step: f32,
    layer: u32,
    index: u32,
) -> Point {
    let z = layer as f32 * height_step;
    let t = index as f32 * PI / angular_resolution as f32;
    let r = radius(t, z / height_max);
    Point { x: (r * f32::cos(t)).to_bits(), y: (r * f32::sin(t)).to_bits(), z: z.to_bits() }
}

fn build_polar(
    radius: fn(f32, f32) -> f32,
    angular_resolution: i32,
    height_max: f32,
    height_step: f32,
) -> Result<Vec<Vec<Point>>, ConfigurationError> {
    build(
        |layer, index| polar(radius, angular_resolution, height_max, height_step, layer, index),
        angular_resolution,
        height_max.to_bits(),
        height_step.to_bits(),
        (height_max / height_step).to_bits(),
    )
}

fn unit(_t: f32, _z: f32) -> f32 {
    1.0
}

#[test]
fn every_ring_has_twice_the_angular_resolution() {
    for angular_resolution in [1, 2, 3, 8, 50, 600] {
        let cloud = build(tag, angular_resolution, bits(3.0), bits(1.0), bits(3.0)).unwrap();
        assert_eq!(cloud.len(), 4);
        for ring in cloud {
            assert_eq!(ring.len(), 2 * angular_resolution as usize);
        }
    }
}

#[test]
fn layer_count_is_the_whole_part_of_the_quotient_and_one() {
    for (height_max, height_step, layers) in [
        (1.0f32, 1.0f32, 2usize),
        (1.0, 2.0, 1),
        (1.0, 0.3, 4),
        (10.0, 2.5, 5),
        (9.99, 2.5, 4),
        (100.0, 0.2, 501),
        (30.0, 0.2, 151),
    ] {
        let cloud = build_polar(unit, 2, height_max, height_step).unwrap();
        assert_eq!(cloud.len(), layers);
        assert_eq!(cloud.len(), f32::floor(height_max / height_step) as usize + 1);
    }
}

#[test]
fn points_come_layer_by_layer_in_angular_order() {
    let cloud = build(tag, 3, bits(2.0), bits(1.0), bits(2.0)).unwrap();
    assert_eq!(cloud.len(), 3);
    for (i, ring) in cloud.iter().enumerate() {
        assert_eq!(ring.len(), 6);
        for (j, p) in ring.iter().enumerate() {
            assert_eq!(*p, tag(i as u32, j as u32));
        }
    }
}

#[test]
fn every_place_of_the_grid_is_sampled_once() {
    let asked: RefCell<Vec<(u32, u32)>> = RefCell::new(Vec::new());
    let cloud = build(
        |layer, index| {
            asked.borrow_mut().push((layer, index));
            tag(layer, index)
        },
        2,
        bits(1.0),
        bits(0.5),
        bits(2.0),
    )
    .unwrap();
    assert_eq!(cloud.len(), 3);
    let mut asked = asked.into_inner();
    asked.sort();
    let grid: Vec<(u32, u32)> = (0..3).flat_map(|i| (0..4).map(move |j| (i, j))).collect();
    assert_eq!(asked, grid);
}

#[test]
fn build_point_ring_samples_one_layer() {
    let ring = build_point_ring(&tag, 5, 4);
    assert_eq!(ring, vec![tag(5, 0), tag(5, 1), tag(5, 2), tag(5, 3)]);
    assert_eq!(build_point_ring(&tag, 0, 0), Vec::new());
}

#[test]
fn constant_radius_gives_two_rings_of_two_points() {
    let cloud = build_polar(unit, 1, 1.0, 1.0).unwrap();
    assert_eq!(cloud.len(), 2);
    for (i, ring) in cloud.iter().enumerate() {
        assert_eq!(ring.len(), 2);
        assert_eq!(f32::from_bits(ring[0].x), 1.0);
        assert_eq!(f32::from_bits(ring[0].y), 0.0);
        assert_eq!(f32::from_bits(ring[1].x), -1.0);
        assert!(f32::from_bits(ring[1].y).abs() < 1.0e-6);
        assert_eq!(f32::from_bits(ring[0].z), i as f32);
        assert_eq!(f32::from_bits(ring[1].z), i as f32);
    }
}

#[test]
fn height_step_of_zero_is_a_configuration_error() {
    assert_eq!(build_polar(unit, 1, 1.0, 0.0), Err(ConfigurationError::HeightStep));
    assert_eq!(build_polar(unit, 1, 1.0, -0.0), Err(ConfigurationError::HeightStep));
}

#[test]
fn height_step_that_is_not_a_positive_number_is_a_configuration_error() {
    for height_step in [-1.0f32, f32::INFINITY, f32::NEG_INFINITY, f32::NAN] {
        assert_eq!(build_polar(unit, 1, 1.0, height_step), Err(ConfigurationError::HeightStep));
    }
}

#[test]
fn height_max_that_is_not_a_positive_number_is_a_configuration_error() {
    for height_max in [0.0f32, -0.0, -5.0, f32::INFINITY, f32::NEG_INFINITY, f32::NAN] {
        assert_eq!(build_polar(unit, 1, height_max, 1.0), Err(ConfigurationError::HeightMax));
    }
}

#[test]
fn angular_resolution_of_zero_or_less_is_a_configuration_error() {
    for angular_resolution in [0, -1, i32::MIN] {
        assert_eq!(
            build_polar(unit, angular_resolution, 1.0, 1.0),
            Err(ConfigurationError::AngularResolution)
        );
    }
}

#[test]
fn angular_resolution_is_looked_at_first_and_height_step_before_height_max() {
    assert_eq!(build_polar(unit, 0, 0.0, 0.0), Err(ConfigurationError::AngularResolution));
    assert_eq!(build_polar(unit, 1, 0.0, 0.0), Err(ConfigurationError::HeightStep));
}

#[test]
fn quotient_that_is_too_large_is_a_configuration_error() {
    assert_eq!(build_polar(unit, 1, 1.0e30, 1.0e-30), Err(ConfigurationError::LayerCount));
    assert_eq!(build_polar(unit, 1, 8.0e9, 1.0), Err(ConfigurationError::LayerCount));
}

#[test]
fn quotient_that_is_no_number_of_steps_is_a_configuration_error() {
    for quotient in [f32::NAN, f32::INFINITY, -1.0, -0.0] {
        assert_eq!(
            build(tag, 1, bits(1.0), bits(1.0), bits(quotient)),
            Err(ConfigurationError::LayerCount)
        );
    }
}

#[test]
fn nothing_is_sampled_when_the_configuration_is_refused() {
    let calls: RefCell<u32> = RefCell::new(0);
    let result = build(
        |layer, index| {
            *calls.borrow_mut() += 1;
            tag(layer, index)
        },
        4,
        bits(1.0),
        bits(0.0),
        bits(f32::INFINITY),
    );
    assert_eq!(result, Err(ConfigurationError::HeightStep));
    assert_eq!(*calls.borrow(), 0);
}

#[test]
fn same_configuration_gives_the_same_cloud() {
    fn wavy(t: f32, z: f32) -> f32 {
        10.0 + f32::sin(3.0 * t) * z
    }
    assert_eq!(build_polar(wavy, 8, 5.0, 0.5), build_polar(wavy, 8, 5.0, 0.5));
}
