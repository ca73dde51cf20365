//! Kernel equivalence and numeric-quality checks on pseudo-random scenes.

use pathtrace::{ray, sphere, vec3, SpheresSoA, Vec3, SCALE};

const S: i128 = SCALE;
const T_MIN: i128 = 65;
const T_MAX: i128 = 1 << 40;

struct Lcg(u64);

impl Lcg {
    fn next(&mut self) -> u64 {
        self.0 = self
            .0
            .wrapping_mul(6364136223846793005)
            .wrapping_add(1442695040888963407);
        self.0 >> 11
    }

    /// Uniform-ish integer in `[lo, hi]`.
    fn range(&mut self, lo: i128, hi: i128) -> i128 {
        lo + (self.next() as i128) % (hi - lo + 1)
    }
}

fn random_scene(rng: &mut Lcg, count: usize) -> Vec<pathtrace::Sphere> {
    let mut spheres = Vec::new();
    for _ in 0..count {
        let c = vec3(
            rng.range(-8 * S, 8 * S),
            rng.range(-8 * S, 8 * S),
            rng.range(-8 * S, 8 * S),
        );
        spheres.push(sphere(c, rng.range(S / 4, 4 * S)));
    }
    spheres
}

fn random_ray(rng: &mut Lcg) -> pathtrace::Ray {
    ray(
        vec3(
            rng.range(-4 * S, 4 * S),
            rng.range(-4 * S, 4 * S),
            rng.range(-4 * S, 4 * S),
        ),
        vec3(
            rng.range(-2 * S, 2 * S),
            rng.range(-2 * S, 2 * S),
            rng.range(-2 * S, 2 * S),
        ),
    )
}

#[test]
fn kernels_agree_on_sphere_count_battery() {
    let mut rng = Lcg(42);
    let mut hits = 0usize;
    for &count in &[1usize, 3, 4, 5, 7, 8, 13] {
        let spheres = random_scene(&mut rng, count);
        let st = SpheresSoA::new(&spheres, false).expect("valid scene");
        for _ in 0..200 {
            let r = random_ray(&mut rng);
            let a = st.hit_scalar(&r, T_MIN, T_MAX);
            let b = st.hit_vector(&r, T_MIN, T_MAX);
            assert_eq!(a, b);
            if let Some((_, idx)) = a {
                assert!((idx as usize) < count);
                hits += 1;
            }
        }
    }
    // The battery must actually exercise the hit path.
    assert!(hits > 100);
}

#[test]
fn dispatch_matches_both_kernels() {
    let mut rng = Lcg(7);
    let spheres = random_scene(&mut rng, 6);
    let st_scalar = SpheresSoA::new(&spheres, false).expect("valid scene");
    let st_vector = SpheresSoA::new(&spheres, true).expect("valid scene");
    for _ in 0..100 {
        let r = random_ray(&mut rng);
        let via_scalar = st_scalar.hit(&r, T_MIN, T_MAX);
        let via_vector = st_vector.hit(&r, T_MIN, T_MAX);
        assert_eq!(via_scalar, via_vector);
        assert_eq!(via_scalar, st_scalar.hit_scalar(&r, T_MIN, T_MAX));
        assert_eq!(via_vector, st_vector.hit_vector(&r, T_MIN, T_MAX));
    }
}

fn world(v: &Vec3) -> (f64, f64, f64) {
    (
        v.x as f64 / S as f64,
        v.y as f64 / S as f64,
        v.z as f64 / S as f64,
    )
}

#[test]
fn hit_points_lie_on_the_surface_with_outward_unit_normals() {
    let mut rng = Lcg(1234);
    let mut checked = 0usize;
    for &count in &[1usize, 5, 13] {
        let spheres = random_scene(&mut rng, count);
        let st = SpheresSoA::new(&spheres, true).expect("valid scene");
        for _ in 0..300 {
            let r = random_ray(&mut rng);
            if let Some((h, idx)) = st.hit(&r, T_MIN, T_MAX) {
                let sp = &spheres[idx as usize];
                let (px, py, pz) = world(&h.point);
                let (cx, cy, cz) = world(&sp.centre);
                let radius = sp.radius as f64 / S as f64;
                let (dx, dy, dz) = (px - cx, py - cy, pz - cz);
                let dist = (dx * dx + dy * dy + dz * dz).sqrt();
                // Surface property: |point - centre| == radius within epsilon.
                assert!(
                    (dist - radius).abs() <= 1e-3 * radius.max(1.0),
                    "distance {} vs radius {}",
                    dist,
                    radius
                );
                // Unit outward normal within epsilon.
                let (nx, ny, nz) = world(&h.normal);
                let norm = (nx * nx + ny * ny + nz * nz).sqrt();
                assert!((norm - 1.0).abs() <= 1e-3, "normal magnitude {}", norm);
                assert!(nx * dx + ny * dy + nz * dz > 0.0, "normal must point outward");
                checked += 1;
            }
        }
    }
    assert!(checked > 100);
}

#[test]
fn reported_hit_is_the_nearest() {
    // Cross-check the winner against a brute-force single-sphere scan.
    let mut rng = Lcg(99);
    let spheres = random_scene(&mut rng, 13);
    let st = SpheresSoA::new(&spheres, true).expect("valid scene");
    for _ in 0..200 {
        let r = random_ray(&mut rng);
        let full = st.hit(&r, T_MIN, T_MAX);
        // Distance (squared, in world units) from ray origin to the point.
        let dist_sq = |h: &pathtrace::RayHit| {
            let (px, py, pz) = world(&h.point);
            let (ox, oy, oz) = world(&r.origin);
            (px - ox) * (px - ox) + (py - oy) * (py - oy) + (pz - oz) * (pz - oz)
        };
        for k in 0..spheres.len() {
            let single = SpheresSoA::new(&vec![spheres[k]], false).expect("valid");
            if let Some((hk, _)) = single.hit(&r, T_MIN, T_MAX) {
                let (hf, _) = full.as_ref().expect("full scene must hit too");
                assert!(dist_sq(hf) <= dist_sq(&hk) + 1e-6);
            }
        }
    }
}
