use pathtrace::distance::Distance;
use pathtrace::nearest::{keep_nearest, trace_ray, HitInfo, ShapeRef};

type V3 = [f32; 3];

fn at(value: f32) -> Option<Distance> {
    Distance::from_bits(value.to_bits())
}

fn hit(shape: ShapeRef, value: f32) -> HitInfo {
    HitInfo { shape, distance: at(value).unwrap() }
}

fn sub(a: V3, b: V3) -> V3 {
    [a[0] - b[0], a[1] - b[1], a[2] - b[2]]
}

fn dot(a: V3, b: V3) -> f32 {
    a[0] * b[0] + a[1] * b[1] + a[2] * b[2]
}

fn cross(a: V3, b: V3) -> V3 {
    [
        a[1] * b[2] - a[2] * b[1],
        a[2] * b[0] - a[0] * b[2],
        a[0] * b[1] - a[1] * b[0],
    ]
}

fn normalize(a: V3) -> V3 {
    let length = dot(a, a).sqrt();
    [a[0] / length, a[1] / length, a[2] / length]
}

/// Distance along the ray to a sphere: the smaller root of the quadratic.
fn sphere_distance(origin: V3, direction: V3, center: V3, radius: f32) -> Option<Distance> {
    let offset = sub(origin, center);
    let a = dot(direction, direction);
    let b = 2.0 * dot(direction, offset);
    let c = dot(offset, offset) - radius * radius;
    let d = b * b - 4.0 * a * c;
    if d < 0.0 {
        return None;
    }
    let t = (-b - d.sqrt()) / (2.0 * a);
    if t < 0.0 {
        return None;
    }
    at(t)
}

/// Distance along the ray to a triangle, by the Moeller-Trumbore test.
fn triangle_distance(origin: V3, direction: V3, v0: V3, v1: V3, v2: V3) -> Option<Distance> {
    let edge1 = sub(v1, v0);
    let edge2 = sub(v2, v0);
    let h = cross(direction, edge2);
    let a = dot(edge1, h);
    if a.abs() < 1e-6 {
        return None;
    }
    let f = 1.0 / a;
    let s = sub(origin, v0);
    let u = f * dot(s, h);
    if u < 0.0 || u > 1.0 {
        return None;
    }
    let q = cross(s, edge1);
    let v = f * dot(direction, q);
    if v < 0.0 || u + v > 1.0 {
        return None;
    }
    let t = f * dot(edge2, q);
    if t < 1e-6 {
        return None;
    }
    at(t)
}

#[test]
fn no_hit_where_every_test_missed() {
    assert_eq!(trace_ray(&vec![], &vec![]), None);
    assert_eq!(trace_ray(&vec![None, None], &vec![None]), None);
    assert_eq!(trace_ray(&vec![None], &vec![]), None);
    assert_eq!(trace_ray(&vec![], &vec![None, None, None]), None);
}

#[test]
fn a_single_hit_is_the_nearest() {
    assert_eq!(
        trace_ray(&vec![None, at(5.0)], &vec![None]),
        Some(hit(ShapeRef::Sphere(1), 5.0))
    );
    assert_eq!(
        trace_ray(&vec![None, None], &vec![None, None, at(0.25)]),
        Some(hit(ShapeRef::Triangle(2), 0.25))
    );
}

#[test]
fn the_strictly_smaller_distance_wins() {
    assert_eq!(
        trace_ray(&vec![at(9.0), at(4.0)], &vec![]),
        Some(hit(ShapeRef::Sphere(1), 4.0))
    );
    assert_eq!(
        trace_ray(&vec![at(4.0), at(9.0)], &vec![]),
        Some(hit(ShapeRef::Sphere(0), 4.0))
    );
    assert_eq!(
        trace_ray(&vec![at(9.0)], &vec![at(4.0)]),
        Some(hit(ShapeRef::Triangle(0), 4.0))
    );
    assert_eq!(
        trace_ray(&vec![at(4.0)], &vec![at(9.0)]),
        Some(hit(ShapeRef::Sphere(0), 4.0))
    );
    assert_eq!(
        trace_ray(&vec![], &vec![at(9.0), at(4.0), at(6.0)]),
        Some(hit(ShapeRef::Triangle(1), 4.0))
    );
}

#[test]
fn equal_distances_resolve_to_the_first_listed() {
    assert_eq!(
        trace_ray(&vec![at(3.0), at(3.0)], &vec![at(3.0)]),
        Some(hit(ShapeRef::Sphere(0), 3.0))
    );
    assert_eq!(
        trace_ray(&vec![None, at(3.0)], &vec![at(3.0)]),
        Some(hit(ShapeRef::Sphere(1), 3.0))
    );
    assert_eq!(
        trace_ray(&vec![at(7.0)], &vec![at(3.0), at(3.0)]),
        Some(hit(ShapeRef::Triangle(0), 3.0))
    );
}

#[test]
fn spheres_are_listed_before_triangles() {
    assert_eq!(
        trace_ray(&vec![None, None, at(2.0)], &vec![at(2.0), at(1.0)]),
        Some(hit(ShapeRef::Triangle(1), 1.0))
    );
    assert_eq!(
        trace_ray(&vec![None, None, at(2.0)], &vec![at(2.0), at(2.5)]),
        Some(hit(ShapeRef::Sphere(2), 2.0))
    );
}

#[test]
fn a_hit_at_distance_zero_is_nearest_of_all() {
    assert_eq!(
        trace_ray(&vec![at(1.0e-30), at(0.0)], &vec![at(-0.0)]),
        Some(hit(ShapeRef::Sphere(1), 0.0))
    );
}

#[test]
fn a_hit_at_infinity_is_still_a_hit() {
    assert_eq!(
        trace_ray(&vec![None], &vec![at(f32::INFINITY)]),
        Some(hit(ShapeRef::Triangle(0), f32::INFINITY))
    );
    assert_eq!(
        trace_ray(&vec![at(f32::INFINITY)], &vec![at(f32::MAX)]),
        Some(hit(ShapeRef::Triangle(0), f32::MAX))
    );
}

#[test]
fn the_nearest_of_many() {
    let spheres = vec![at(12.0), None, at(7.5), at(30.0), None, at(7.5)];
    let triangles = vec![None, at(8.0), at(7.500_001), at(100.0)];
    assert_eq!(
        trace_ray(&spheres, &triangles),
        Some(hit(ShapeRef::Sphere(2), 7.5))
    );
}

#[test]
fn keep_nearest_takes_the_first_hit() {
    assert_eq!(keep_nearest(None, ShapeRef::Sphere(0), None), None);
    assert_eq!(
        keep_nearest(None, ShapeRef::Triangle(4), at(2.0)),
        Some(hit(ShapeRef::Triangle(4), 2.0))
    );
}

#[test]
fn keep_nearest_replaces_only_when_strictly_nearer() {
    let kept = Some(hit(ShapeRef::Sphere(0), 2.0));
    assert_eq!(keep_nearest(kept, ShapeRef::Sphere(1), None), kept);
    assert_eq!(keep_nearest(kept, ShapeRef::Sphere(1), at(2.0)), kept);
    assert_eq!(keep_nearest(kept, ShapeRef::Sphere(1), at(2.5)), kept);
    assert_eq!(
        keep_nearest(kept, ShapeRef::Sphere(1), at(1.999_999_9)),
        Some(hit(ShapeRef::Sphere(1), 1.999_999_9))
    );
}

#[test]
fn a_sphere_straight_ahead_is_hit_and_a_ray_aimed_away_misses() {
    let origin = [0.0, 0.0, 0.0];
    let center = [0.0, 2.0, 20.0];
    let ahead = [0.0, 0.0, 1.0];
    let aside = normalize([1000.0, 1000.0, 1.0]);

    let spheres = vec![sphere_distance(origin, ahead, center, 3.0)];
    let nearest = trace_ray(&spheres, &vec![]).unwrap();
    assert_eq!(nearest.shape, ShapeRef::Sphere(0));
    // the ray meets the sphere where z = 20 - sqrt(9 - 4)
    let expected = 20.0 - 5.0f32.sqrt();
    let found = f32::from_bits(nearest.distance.to_bits());
    assert!((found - expected).abs() < 1.0e-4);

    let spheres = vec![sphere_distance(origin, aside, center, 3.0)];
    assert_eq!(trace_ray(&spheres, &vec![]), None);
}

#[test]
fn a_ray_at_the_centre_of_a_sphere_hits_one_radius_before_the_centre() {
    let origin = [1.0, -2.0, 3.0];
    let center = [4.0, 2.0, 15.0];
    let direction = normalize(sub(center, origin));
    let spheres = vec![sphere_distance(origin, direction, center, 2.0)];
    let nearest = trace_ray(&spheres, &vec![]).unwrap();
    let found = f32::from_bits(nearest.distance.to_bits());
    assert!((found - (13.0 - 2.0)).abs() < 1.0e-4);
}

#[test]
fn a_downward_ray_between_two_spheres_hits_the_floor() {
    let origin = [0.0, 0.0, 0.0];
    let direction = normalize([0.0, 0.5, 1.0]);
    let spheres = vec![
        sphere_distance(origin, direction, [4.0, 0.0, 8.0], 2.0),
        sphere_distance(origin, direction, [-4.0, 0.0, 8.0], 2.0),
    ];
    let floor = [
        ([-20.0, 2.0, 20.0], [-20.0, 2.0, -20.0], [20.0, 2.0, -20.0]),
        ([-20.0, 2.0, 20.0], [20.0, 2.0, 20.0], [20.0, 2.0, -20.0]),
    ];
    let triangles: Vec<Option<Distance>> = floor
        .iter()
        .map(|&(v0, v1, v2)| triangle_distance(origin, direction, v0, v1, v2))
        .collect();
    assert_eq!(spheres, vec![None, None]);
    assert_eq!(triangles[0], None);
    let nearest = trace_ray(&spheres, &triangles).unwrap();
    assert_eq!(nearest.shape, ShapeRef::Triangle(1));
    // the floor lies at y = 2, which the ray reaches at (0, 2, 4)
    let found = f32::from_bits(nearest.distance.to_bits());
    assert!((found - 20.0f32.sqrt()).abs() < 1.0e-4);
}

#[test]
fn a_sphere_in_front_of_the_floor_hides_it() {
    let origin = [0.0, 0.0, 0.0];
    let direction = normalize([4.0, 1.0, 8.0]);
    let spheres = vec![
        sphere_distance(origin, direction, [4.0, 0.0, 8.0], 2.0),
        sphere_distance(origin, direction, [-4.0, 0.0, 8.0], 2.0),
    ];
    let triangles = vec![
        triangle_distance(
            origin,
            direction,
            [-20.0, 2.0, 20.0],
            [-20.0, 2.0, -20.0],
            [20.0, 2.0, -20.0],
        ),
        triangle_distance(
            origin,
            direction,
            [-20.0, 2.0, 20.0],
            [20.0, 2.0, 20.0],
            [20.0, 2.0, -20.0],
        ),
    ];
    assert!(spheres[0].is_some());
    assert!(triangles[1].is_some());
    let nearest = trace_ray(&spheres, &triangles).unwrap();
    assert_eq!(nearest.shape, ShapeRef::Sphere(0));
    assert_eq!(Some(nearest.distance), spheres[0]);
}

#[test]
fn of_two_overlapping_spheres_the_nearer_surface_is_hit() {
    let origin = [0.0, 0.0, 0.0];
    let direction = [0.0, 0.0, 1.0];
    let spheres = vec![
        sphere_distance(origin, direction, [0.0, 0.0, 10.0], 3.0),
        sphere_distance(origin, direction, [0.0, 0.0, 9.0], 3.0),
    ];
    assert_eq!(
        trace_ray(&spheres, &vec![]),
        Some(hit(ShapeRef::Sphere(1), 6.0))
    );
}
