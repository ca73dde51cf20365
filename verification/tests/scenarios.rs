//! Concrete intersection scenarios on the fixed-point grid.
//! One world unit is `SCALE` = 65536 grid steps.

use pathtrace::{ray, sphere, vec3, Ray, Sphere, SpheresSoA, Vec3, SCALE};

const S: i128 = SCALE; // 65536
const T_MIN: i128 = 65; // about 0.001 world units
const T_MAX: i128 = 1 << 40;

fn store(spheres: Vec<Sphere>, use_vector: bool) -> SpheresSoA {
    SpheresSoA::new(&spheres, use_vector).expect("valid spheres")
}

#[test]
fn hit_straight_ahead() {
    // Sphere centre (0, 0, -1), radius 0.5; ray from the origin along -z.
    let sp = sphere(vec3(0, 0, -S), S / 2);
    let st = store(vec![sp], false);
    let r = ray(vec3(0, 0, 0), vec3(0, 0, -S));
    let (h, idx) = st.hit(&r, T_MIN, T_MAX).expect("must hit");
    assert_eq!(idx, 0);
    // t = 0.5, so the surface point is (0, 0, -0.5) and the normal +z.
    assert_eq!(h.point, Vec3 { x: 0, y: 0, z: -S / 2 });
    assert_eq!(h.normal, Vec3 { x: 0, y: 0, z: S });
}

#[test]
fn miss_perpendicular() {
    // Same sphere; a ray straight up misses entirely.
    let sp = sphere(vec3(0, 0, -S), S / 2);
    let st = store(vec![sp], false);
    let r = ray(vec3(0, 0, 0), vec3(0, S, 0));
    assert!(st.hit(&r, T_MIN, T_MAX).is_none());
    assert!(st.hit_scalar(&r, T_MIN, T_MAX).is_none());
    assert!(st.hit_vector(&r, T_MIN, T_MAX).is_none());
}

#[test]
fn origin_inside_sphere_uses_far_root() {
    // Unit sphere at the origin, ray starting at its centre along +x:
    // the near root is negative, the far root gives t = 1.
    let sp = sphere(vec3(0, 0, 0), S);
    let st = store(vec![sp], false);
    let r = ray(vec3(0, 0, 0), vec3(S, 0, 0));
    let (h, idx) = st.hit(&r, T_MIN, T_MAX).expect("must hit");
    assert_eq!(idx, 0);
    assert_eq!(h.point, Vec3 { x: S, y: 0, z: 0 });
    assert_eq!(h.normal, Vec3 { x: S, y: 0, z: 0 });
}

#[test]
fn tangent_ray_is_a_miss() {
    // Sphere centre (0, 0.5, 0), radius 0.5; a horizontal ray at height 1
    // grazes it exactly (discriminant zero) and must miss.
    let sp = sphere(vec3(0, S / 2, 0), S / 2);
    let st = store(vec![sp], false);
    let r = ray(vec3(-S, S, 0), vec3(S, 0, 0));
    assert!(st.hit_scalar(&r, T_MIN, T_MAX).is_none());
    assert!(st.hit_vector(&r, T_MIN, T_MAX).is_none());
    // Lower the ray by one grid step and it hits.
    let r2 = ray(vec3(-S, S - 1, 0), vec3(S, 0, 0));
    assert!(st.hit_scalar(&r2, T_MIN, T_MAX).is_some());
}

#[test]
fn nearest_sphere_wins() {
    // Two spheres on the ray's path; the nearer one is reported,
    // whichever slot it sits in.
    let near = sphere(vec3(0, 0, -2 * S), S / 2);
    let far = sphere(vec3(0, 0, -3 * S), S);
    let r = ray(vec3(0, 0, 0), vec3(0, 0, -S));

    let st1 = store(vec![near, far], false);
    let (_, idx1) = st1.hit(&r, T_MIN, T_MAX).expect("must hit");
    assert_eq!(idx1, 0);

    let st2 = store(vec![far, near], true);
    let (_, idx2) = st2.hit(&r, T_MIN, T_MAX).expect("must hit");
    assert_eq!(idx2, 1);
}

#[test]
fn exact_tie_keeps_first_index() {
    // Two identical spheres: the scan-order tie break reports index 0,
    // in both kernels (the four-lane kernel holds them in different lanes).
    let sp = sphere(vec3(0, 0, -2 * S), S / 2);
    let st = store(vec![sp, sp], false);
    let r = ray(vec3(0, 0, 0), vec3(0, 0, -S));
    let (_, i_scalar) = st.hit_scalar(&r, T_MIN, T_MAX).expect("must hit");
    let (_, i_vector) = st.hit_vector(&r, T_MIN, T_MAX).expect("must hit");
    assert_eq!(i_scalar, 0);
    assert_eq!(i_vector, 0);
}

#[test]
fn padding_never_reported() {
    // One and five spheres (counts not divisible by four): any hit index
    // stays below the logical count, whatever the ray.
    for &(count, use_vector) in &[(1usize, true), (5usize, true), (1, false), (5, false)] {
        let mut spheres = Vec::new();
        for k in 0..count {
            spheres.push(sphere(vec3(0, 0, -2 * S * (k as i128 + 1)), S / 2));
        }
        let st = store(spheres, use_vector);
        let dirs = [
            vec3(0, 0, -S),
            vec3(0, 0, S),
            vec3(S, 0, 0),
            vec3(3 * S, S, -2 * S),
            vec3(0, -S, 0),
        ];
        for d in dirs.iter() {
            if let Some((_, idx)) = st.hit(&ray(vec3(0, 0, 0), *d), T_MIN, T_MAX) {
                assert!((idx as usize) < count);
            }
        }
    }
}

#[test]
fn build_rejects_bad_radius() {
    let good = sphere(vec3(0, 0, 0), S);
    let zero = sphere(vec3(0, 0, 0), 0);
    let negative = sphere(vec3(0, 0, 0), -S);
    assert!(SpheresSoA::new(&vec![good, zero], false).is_none());
    assert!(SpheresSoA::new(&vec![negative], false).is_none());
    assert!(SpheresSoA::new(&vec![good], false).is_some());
}

#[test]
fn build_rejects_out_of_range_centre() {
    let far = sphere(vec3(1 << 40, 0, 0), S);
    assert!(SpheresSoA::new(&vec![far], false).is_none());
}

#[test]
fn build_pads_to_multiple_of_four() {
    let st = store(vec![sphere(vec3(S, 2 * S, 3 * S), S / 2)], false);
    assert_eq!(st.num_spheres, 1);
    assert_eq!(st.len, 4);
    // Logical row: squared radius and reciprocal radius are precomputed.
    assert_eq!(st.centre(0), Vec3 { x: S, y: 2 * S, z: 3 * S });
    assert_eq!(st.radius_sq(0), (S / 2) * (S / 2));
    assert_eq!(st.radius_inv[0], 2 * S);
    // Sentinel rows: unreachable centre, zero squared radius.
    for i in 1..4 {
        assert_eq!(st.radius_sq(i), 0);
        assert!(st.centre(i).x > (1 << 28));
    }
}

#[test]
fn empty_scene_never_hits() {
    let st = store(Vec::new(), true);
    assert_eq!(st.num_spheres, 0);
    assert_eq!(st.len, 0);
    let r = ray(vec3(0, 0, 0), vec3(0, 0, -S));
    assert!(st.hit(&r, T_MIN, T_MAX).is_none());
}

#[test]
fn degenerate_queries_miss() {
    let st = store(vec![sphere(vec3(0, 0, -2 * S), S)], false);
    // Zero-length direction.
    let r0 = ray(vec3(0, 0, 0), vec3(0, 0, 0));
    assert!(st.hit(&r0, T_MIN, T_MAX).is_none());
    // Inverted window.
    let r = ray(vec3(0, 0, 0), vec3(0, 0, -S));
    assert!(st.hit(&r, T_MAX, T_MIN).is_none());
}

#[test]
fn point_at_parameter_walks_the_ray() {
    let r = Ray::new(vec3(S, 0, 0), vec3(S / 2, 0, 0));
    // t = 2 world units: x = 1 + 2 * 0.5 = 2.
    assert_eq!(r.point_at_parameter(2 * S), Vec3 { x: 2 * S, y: 0, z: 0 });
    assert_eq!(r.origin, vec3(S, 0, 0));
    assert_eq!(r.direction, vec3(S / 2, 0, 0));
}

#[test]
fn reflect_mirrors_about_normal() {
    let v = vec3(S, -S, 0);
    let n = vec3(0, S, 0);
    assert_eq!(pathtrace::reflect(v, n), Vec3 { x: S, y: S, z: 0 });
}
