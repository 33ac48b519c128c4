use tracer_r::bounds::Bounds;
use tracer_r::ray::{Ray, RAY_MAX, RAY_MIN};
use tracer_r::vectors::{SplitAxis, V3};

fn unit_box() -> Bounds {
    Bounds { min_point: V3::new(-1, -1, -1), max_point: V3::new(1, 1, 1) }
}

#[test]
fn union_is_componentwise_min_and_max() {
    let a = Bounds { min_point: V3::new(0, 5, -2), max_point: V3::new(4, 6, 0) };
    let b = Bounds { min_point: V3::new(-3, 7, -1), max_point: V3::new(1, 9, 8) };
    let u = Bounds::union(a, b);
    assert_eq!(u.min_point, V3::new(-3, 5, -2));
    assert_eq!(u.max_point, V3::new(4, 9, 8));
}

#[test]
fn box_around_a_sphere() {
    let b = Bounds::around_sphere(V3::new(10, -20, 30), 5);
    assert_eq!(b.min_point, V3::new(5, -25, 25));
    assert_eq!(b.max_point, V3::new(15, -15, 35));
    let point = Bounds::around_sphere(V3::new(1, 2, 3), 0);
    assert!(point.is_singularity());
    let cut = Bounds::around_sphere(V3::new(i32::MAX - 1, i32::MIN + 1, 0), u32::MAX);
    assert_eq!(cut.min_point, V3::new(i32::MIN, i32::MIN, i32::MIN));
    assert_eq!(cut.max_point, V3::new(i32::MAX, i32::MAX, i32::MAX));
    let edge = Bounds::around_sphere(V3::new(i32::MAX - 1, i32::MIN + 1, 0), 2);
    assert_eq!(edge.min_point, V3::new(i32::MAX - 3, i32::MIN, -2));
    assert_eq!(edge.max_point, V3::new(i32::MAX, i32::MIN + 3, 2));
}

#[test]
fn union_with_point_grows_only_where_needed() {
    let b = Bounds::union_v3(unit_box(), V3::new(0, 3, -4));
    assert_eq!(b.min_point, V3::new(-1, -1, -4));
    assert_eq!(b.max_point, V3::new(1, 3, 1));
}

#[test]
fn centroid_is_midpoint_rounded_down() {
    let b = Bounds { min_point: V3::new(0, -3, 2), max_point: V3::new(4, 0, 3) };
    assert_eq!(b.centroid(), V3::new(2, -2, 2));
}

#[test]
fn longest_axis_breaks_ties_towards_earlier_axes() {
    let cube = unit_box();
    assert_eq!(cube.maximum_length_axis(), SplitAxis::X);
    let x_and_y = Bounds { min_point: V3::zero(), max_point: V3::new(2, 2, 1) };
    assert_eq!(x_and_y.maximum_length_axis(), SplitAxis::X);
    let x_and_z = Bounds { min_point: V3::zero(), max_point: V3::new(5, 1, 5) };
    assert_eq!(x_and_z.maximum_length_axis(), SplitAxis::X);
    let y_and_z = Bounds { min_point: V3::zero(), max_point: V3::new(1, 5, 5) };
    assert_eq!(y_and_z.maximum_length_axis(), SplitAxis::Y);
    let point = Bounds::around(V3::new(3, 4, 5));
    assert_eq!(point.maximum_length_axis(), SplitAxis::X);
}

#[test]
fn longest_axis_is_the_one_of_greatest_extent() {
    let x_only = Bounds { min_point: V3::zero(), max_point: V3::new(6, 5, 5) };
    assert_eq!(x_only.maximum_length_axis(), SplitAxis::X);
    let y_only = Bounds { min_point: V3::zero(), max_point: V3::new(1, 5, 4) };
    assert_eq!(y_only.maximum_length_axis(), SplitAxis::Y);
    let z_only = Bounds { min_point: V3::zero(), max_point: V3::new(1, 4, 5) };
    assert_eq!(z_only.maximum_length_axis(), SplitAxis::Z);
    let y_over_x = Bounds { min_point: V3::zero(), max_point: V3::new(4, 5, 5) };
    assert_eq!(y_over_x.maximum_length_axis(), SplitAxis::Y);
    let z_over_x = Bounds { min_point: V3::zero(), max_point: V3::new(5, 4, 6) };
    assert_eq!(z_over_x.maximum_length_axis(), SplitAxis::Z);
}

#[test]
fn singularity_means_equal_corners() {
    assert!(Bounds::around(V3::new(3, 4, 5)).is_singularity());
    assert!(!unit_box().is_singularity());
    let flat = Bounds { min_point: V3::new(0, 0, 0), max_point: V3::new(0, 0, 1) };
    assert!(!flat.is_singularity());
}

#[test]
fn dimension_is_signed_extent() {
    let b = Bounds { min_point: V3::new(-2, 0, 7), max_point: V3::new(5, 0, 3) };
    assert_eq!(b.dimension(SplitAxis::X), 7);
    assert_eq!(b.dimension(SplitAxis::Y), 0);
    assert_eq!(b.dimension(SplitAxis::Z), -4);
    let wide = Bounds { min_point: V3::new(i32::MIN, 0, 0), max_point: V3::new(i32::MAX, 0, 0) };
    assert_eq!(wide.dimension(SplitAxis::X), 4294967295);
}

#[test]
fn ray_aimed_at_the_centre_hits() {
    let ray = Ray::new(V3::new(-5, 0, 0), V3::new(1, 0, 0));
    assert!(unit_box().intersects(&ray));
    let diagonal = Ray::new(V3::new(-10, -10, -10), V3::new(1, 1, 1));
    assert!(unit_box().intersects(&diagonal));
}

#[test]
fn ray_parallel_to_a_face_and_outside_misses() {
    let ray = Ray::new(V3::new(-5, 2, 0), V3::new(1, 0, 0));
    assert!(!unit_box().intersects(&ray));
    let below = Ray::new(V3::new(-5, 0, -2), V3::new(1, 0, 0));
    assert!(!unit_box().intersects(&below));
}

#[test]
fn ray_parallel_to_a_face_and_on_it_hits() {
    let ray = Ray::new(V3::new(-5, 1, 0), V3::new(1, 0, 0));
    assert!(unit_box().intersects(&ray));
    let other = Ray::new(V3::new(-5, -1, -1), V3::new(1, 0, 0));
    assert!(unit_box().intersects(&other));
}

#[test]
fn ray_pointing_away_misses() {
    let ray = Ray::new(V3::new(-5, 0, 0), V3::new(-1, 0, 0));
    assert!(!unit_box().intersects(&ray));
}

#[test]
fn ray_range_cuts_the_box_off() {
    let mut ray = Ray::new(V3::new(-5, 0, 0), V3::new(1, 0, 0));
    ray.max = 3;
    assert!(!unit_box().intersects(&ray));
    ray.max = 4;
    assert!(unit_box().intersects(&ray));
    ray.min = 7;
    ray.max = 100;
    assert!(!unit_box().intersects(&ray));
    ray.min = 6;
    assert!(unit_box().intersects(&ray));
    ray.min = 9;
    ray.max = 8;
    assert!(!unit_box().intersects(&ray));
}

#[test]
fn ray_passing_between_grid_points_hits() {
    // Enters the box at parameter 1/3 and leaves it at 1: no whole parameter
    // but the last lies inside.
    let b = Bounds { min_point: V3::new(1, 0, 0), max_point: V3::new(3, 1, 1) };
    let mut ray = Ray::new(V3::new(0, 0, 0), V3::new(3, 1, 1));
    ray.min = 0;
    ray.max = 0;
    assert!(!b.intersects(&ray));
    ray.max = 1;
    assert!(b.intersects(&ray));
    // Crosses a corner region only strictly between parameters 0 and 1.
    let c = Bounds { min_point: V3::new(1, 1, 0), max_point: V3::new(2, 2, 0) };
    let mut through = Ray::new(V3::new(0, 0, 0), V3::new(3, 3, 0));
    through.min = 0;
    through.max = 1;
    assert!(c.intersects(&through));
}

#[test]
fn zero_direction_hits_only_from_inside() {
    let inside = Ray::new(V3::new(0, 0, 0), V3::new(0, 0, 0));
    assert!(unit_box().intersects(&inside));
    let outside = Ray::new(V3::new(2, 0, 0), V3::new(0, 0, 0));
    assert!(!unit_box().intersects(&outside));
}

#[test]
fn degenerate_box_is_hit_by_a_ray_through_its_point() {
    let point = Bounds::around(V3::new(4, 4, 4));
    let through = Ray::new(V3::new(0, 0, 0), V3::new(1, 1, 1));
    assert!(point.intersects(&through));
    let past = Ray::new(V3::new(0, 0, 0), V3::new(1, 1, 2));
    assert!(!point.intersects(&past));
}

#[test]
fn corners_the_other_way_round_span_the_same_box() {
    let swapped = Bounds { min_point: V3::new(1, 1, 1), max_point: V3::new(-1, -1, -1) };
    let ray = Ray::new(V3::new(-5, 0, 0), V3::new(1, 0, 0));
    assert_eq!(swapped.intersects(&ray), unit_box().intersects(&ray));
    let miss = Ray::new(V3::new(-5, 2, 0), V3::new(1, 0, 0));
    assert_eq!(swapped.intersects(&miss), unit_box().intersects(&miss));
}

#[test]
fn extreme_coordinates_do_not_overflow() {
    let all = Bounds {
        min_point: V3::new(i32::MIN, i32::MIN, i32::MIN),
        max_point: V3::new(i32::MAX, i32::MAX, i32::MAX),
    };
    let mut ray = Ray::new(V3::new(i32::MAX, i32::MIN, 0), V3::new(i32::MIN, i32::MAX, i32::MAX));
    ray.min = i64::MIN;
    ray.max = i64::MAX;
    assert!(all.intersects(&ray));
    assert_eq!(all.centroid(), V3::new(-1, -1, -1));
}

#[test]
fn new_ray_has_default_range() {
    let ray = Ray::new(V3::new(1, 2, 3), V3::new(4, 5, 6));
    assert_eq!(ray.origin, V3::new(1, 2, 3));
    assert_eq!(ray.dir, V3::new(4, 5, 6));
    assert_eq!(ray.min, RAY_MIN);
    assert_eq!(ray.max, RAY_MAX);
}

#[test]
fn from_to_points_at_the_target() {
    let ray = Ray::from_to(V3::new(1, 2, 3), V3::new(4, 0, 3)).unwrap();
    assert_eq!(ray.origin, V3::new(1, 2, 3));
    assert_eq!(ray.dir, V3::new(3, -2, 0));
    assert_eq!(ray.min, RAY_MIN);
    assert_eq!(ray.max, RAY_MAX);
    assert!(Ray::from_to(V3::new(i32::MIN, 0, 0), V3::new(1, 0, 0)).is_none());
    assert!(Ray::from_to(V3::new(i32::MIN, 0, 0), V3::new(-1, 0, 0)).is_some());
}

#[test]
fn faced_normal_opposes_the_ray() {
    let ray = Ray::new(V3::zero(), V3::new(1, 0, 0));
    assert_eq!(ray.get_faced_normal(V3::new(-1, 0, 0)), V3::new(-1, 0, 0));
    assert_eq!(ray.get_faced_normal(V3::new(1, 2, 3)), V3::new(-1, -2, -3));
    assert_eq!(ray.get_faced_normal(V3::new(0, 1, 0)), V3::new(0, -1, 0));
}

#[test]
fn vector_constants_and_products() {
    assert_eq!(V3::zero(), V3::new(0, 0, 0));
    assert_eq!(V3::one(), V3::new(1, 1, 1));
    assert_eq!(V3::x(), V3::new(1, 0, 0));
    assert_eq!(V3::y(), V3::new(0, 1, 0));
    assert_eq!(V3::z(), V3::new(0, 0, 1));
    assert_eq!(V3::new(1, 2, 3).dot(&V3::new(4, -5, 6)), 12);
    assert_eq!(V3::new(3, 4, 12).magnitude_squared(), 169);
    let big = V3::new(i32::MIN, i32::MIN, i32::MIN);
    assert_eq!(big.magnitude_squared(), 3 * (1i128 << 62));
    assert_eq!(SplitAxis::Y.proj(V3::new(7, 8, 9)), 8);
}
