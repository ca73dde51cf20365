//! Rays, spheres, the structure-of-arrays sphere store, and the two
//! intersection kernels.

use vstd::prelude::*;
use vstd::arithmetic::mul::lemma_mul_strict_inequality;
use vstd::arithmetic::div_mod::{
    lemma_fundamental_div_mod, lemma_mod_multiples_basic, lemma_mod_multiples_vanish,
    lemma_mod_bound, lemma_small_mod,
};
use crate::math::{
    Vec3, in_bounds, spec_dot, dot3, div_floor, isqrt, sqrt_floor, lemma_sqrt_floor_props,
    lemma_sq_mono, lemma_sq_nonneg, lemma_mul_comm, lemma_mul_abs, lemma_dot_sq_le,
    lemma_div_small_quotient, lemma_scaled_floor_sign, COORD_MAX, SENTINEL_CENTRE, T_BOUND,
    SCALE, SCALE_SQ,
};

verus! {

/// A ray on the fixed-point grid. The direction need not be normalized;
/// a direction of one world unit has components of magnitude `SCALE`.
#[derive(Clone, Copy, Debug, PartialEq, Eq, Structural)]
pub struct Ray {
    pub origin: Vec3,
    pub direction: Vec3,
}

impl Ray {
    /// Both endpoints lie on the representable part of the grid.
    pub open spec fn wf(self) -> bool {
        &&& in_bounds(self.origin, COORD_MAX as int)
        &&& in_bounds(self.direction, COORD_MAX as int)
    }

    pub fn new(origin: Vec3, direction: Vec3) -> (r: Ray)
        ensures
            r == (Ray { origin, direction }),
    {
        Ray { origin, direction }
    }

    /// The point `origin + t * direction`, with `t` a fixed-point
    /// parameter in units of `1 / SCALE`.
    pub fn point_at_parameter(&self, t: i128) -> (p: Vec3)
        requires
            self.wf(),
            -T_BOUND <= t <= T_BOUND,
        ensures
            p == spec_point_at(*self, t as int),
    {
        proof {
            lemma_mul_abs(t as int, self.direction.x as int, T_BOUND as int, COORD_MAX as int);
            lemma_mul_abs(t as int, self.direction.y as int, T_BOUND as int, COORD_MAX as int);
            lemma_mul_abs(t as int, self.direction.z as int, T_BOUND as int, COORD_MAX as int);
            lemma_div_small_quotient(
                t as int * self.direction.x as int,
                SCALE as int,
                0x100000000000000000,
            );
            lemma_div_small_quotient(
                t as int * self.direction.y as int,
                SCALE as int,
                0x100000000000000000,
            );
            lemma_div_small_quotient(
                t as int * self.direction.z as int,
                SCALE as int,
                0x100000000000000000,
            );
        }
        Vec3 {
            x: self.origin.x + div_floor(t * self.direction.x, SCALE),
            y: self.origin.y + div_floor(t * self.direction.y, SCALE),
            z: self.origin.z + div_floor(t * self.direction.z, SCALE),
        }
    }
}

/// The point a ray reaches at fixed-point parameter `t`:
/// `origin + (t / SCALE) * direction` on the grid.
pub open spec fn spec_point_at(ray: Ray, t: int) -> Vec3 {
    Vec3 {
        x: (ray.origin.x + (t * ray.direction.x) / (SCALE as int)) as i128,
        y: (ray.origin.y + (t * ray.direction.y) / (SCALE as int)) as i128,
        z: (ray.origin.z + (t * ray.direction.z) / (SCALE as int)) as i128,
    }
}

pub fn ray(origin: Vec3, direction: Vec3) -> (r: Ray)
    ensures
        r == (Ray { origin, direction }),
{
    Ray { origin, direction }
}

/// A sphere: centre point and radius, both on the grid.
#[derive(Clone, Copy, Debug, PartialEq, Eq, Structural)]
pub struct Sphere {
    pub centre: Vec3,
    pub radius: i128,
}

impl Sphere {
    /// A valid scene sphere: positive bounded radius, bounded centre.
    pub open spec fn wf(self) -> bool {
        &&& in_bounds(self.centre, COORD_MAX as int)
        &&& 0 < self.radius <= COORD_MAX
    }
}

pub fn sphere(centre: Vec3, radius: i128) -> (s: Sphere)
    ensures
        s == (Sphere { centre, radius }),
{
    Sphere { centre, radius }
}

/// The result of a successful intersection query: the surface point and
/// the outward unit normal (of magnitude about `SCALE`) at that point.
#[derive(Clone, Copy, Debug, PartialEq, Eq, Structural)]
pub struct RayHit {
    pub point: Vec3,
    pub normal: Vec3,
}

/// Most spheres a store accepts; keeps the padded length in `u32` range.
pub const MAX_SPHERES: usize = 1073741820;

/// Structure-of-arrays sphere store: one parallel array per attribute,
/// padded with sentinel rows to a multiple of four so the four-lane
/// kernel can always process full groups.
#[derive(Debug)]
pub struct SpheresSoA {
    pub centre_x: Vec<i128>,
    pub centre_y: Vec<i128>,
    pub centre_z: Vec<i128>,
    pub radius_sq: Vec<i128>,
    pub radius_inv: Vec<i128>,
    pub len: usize,
    pub num_spheres: usize,
    pub use_vector: bool,
}

/// Bounds that every row of a store obeys, sentinel rows included.
pub open spec fn entry_wf(s: SpheresSoA, i: int) -> bool {
    &&& -SENTINEL_CENTRE <= s.centre_x@[i] <= SENTINEL_CENTRE
    &&& -SENTINEL_CENTRE <= s.centre_y@[i] <= SENTINEL_CENTRE
    &&& -SENTINEL_CENTRE <= s.centre_z@[i] <= SENTINEL_CENTRE
    &&& 0 <= s.radius_sq@[i] <= 0x100000000000000
    &&& 0 <= s.radius_inv@[i] <= SCALE_SQ
}

impl SpheresSoA {
    /// The store invariant: equal-length parallel arrays, a padded length
    /// that is the next multiple of four, bounded rows, and sentinel rows
    /// (zero squared radius) on all of the padding.
    pub open spec fn wf(self) -> bool {
        &&& self.centre_x@.len() == self.len
        &&& self.centre_y@.len() == self.len
        &&& self.centre_z@.len() == self.len
        &&& self.radius_sq@.len() == self.len
        &&& self.radius_inv@.len() == self.len
        &&& self.num_spheres <= self.len < self.num_spheres + 4
        &&& self.len % 4 == 0
        &&& self.len <= 0x40000000
        &&& forall|i: int| 0 <= i < self.len ==> #[trigger] entry_wf(self, i)
        &&& forall|i: int|
            self.num_spheres <= i < self.len ==> #[trigger] self.radius_sq@[i] == 0
    }
}

/// Squared length of the ray direction: the common denominator of every
/// intersection parameter of one query.
pub open spec fn dir_dot(ray: Ray) -> int {
    spec_dot(ray.direction, ray.direction)
}

/// Half of the linear quadratic coefficient for sphere `i`:
/// `dot(centre - origin, direction)`.
pub open spec fn spec_nb(s: SpheresSoA, ray: Ray, i: int) -> int {
    (s.centre_x@[i] - ray.origin.x) * ray.direction.x + (s.centre_y@[i] - ray.origin.y)
        * ray.direction.y + (s.centre_z@[i] - ray.origin.z) * ray.direction.z
}

/// Constant quadratic coefficient for sphere `i`:
/// `dot(centre - origin, centre - origin) - radius_sq`.
pub open spec fn spec_c(s: SpheresSoA, ray: Ray, i: int) -> int {
    let cox = s.centre_x@[i] - ray.origin.x;
    let coy = s.centre_y@[i] - ray.origin.y;
    let coz = s.centre_z@[i] - ray.origin.z;
    cox * cox + coy * coy + coz * coz - s.radius_sq@[i]
}

/// Discriminant of the ray-sphere quadratic for sphere `i`. The sphere is
/// intersected only when this is strictly positive; an exact tangency
/// (discriminant zero) counts as a miss.
pub open spec fn spec_disc(s: SpheresSoA, ray: Ray, i: int) -> int {
    spec_nb(s, ray, i) * spec_nb(s, ray, i) - dir_dot(ray) * spec_c(s, ray, i)
}

/// Numerator of the candidate intersection parameter of sphere `i` over
/// the common denominator `dir_dot(ray)`: the nearer root unless that
/// falls before `t_min`, in which case the farther root.
pub open spec fn candidate_num(s: SpheresSoA, ray: Ray, t_min: int, i: int) -> Option<int> {
    let disc = spec_disc(s, ray, i);
    if disc > 0 {
        let root = sqrt_floor(disc);
        let n0 = spec_nb(s, ray, i) - root;
        if n0 * (SCALE as int) < t_min * dir_dot(ray) {
            Some(spec_nb(s, ray, i) + root)
        } else {
            Some(n0)
        }
    } else {
        None
    }
}

/// The candidate of sphere `i` when it falls strictly inside the
/// acceptance window `(t_min, t_max)`; `None` otherwise.
pub open spec fn windowed_num(s: SpheresSoA, ray: Ray, t_min: int, t_max: int, i: int) -> Option<
    int,
> {
    match candidate_num(s, ray, t_min, i) {
        Some(n) => if t_min * dir_dot(ray) < n * (SCALE as int) && n * (SCALE as int) < t_max * dir_dot(ray) {
            Some(n)
        } else {
            None
        },
        None => None,
    }
}

/// The running best `(n, j)` is still the winner against sphere `i` with
/// windowed candidate `w`: either `i` misses, or it is strictly farther,
/// or it ties and came later in scan order.
pub open spec fn beats(n: int, j: int, w: Option<int>, i: int) -> bool {
    match w {
        None => true,
        Some(m) => n < m || (n == m && j <= i),
    }
}

/// `b` is the result of the running-minimum scan restricted to the index
/// set `idxs`: `None` when no index there has a windowed candidate, else
/// the nearest candidate, earliest index first on ties.
pub open spec fn best_over(
    s: SpheresSoA,
    ray: Ray,
    t_min: int,
    t_max: int,
    idxs: Set<int>,
    b: Option<(int, int)>,
) -> bool {
    match b {
        None => forall|i: int|
            idxs.contains(i) ==> #[trigger] windowed_num(s, ray, t_min, t_max, i) is None,
        Some(p) => {
            &&& idxs.contains(p.1)
            &&& 0 <= p.1
            &&& windowed_num(s, ray, t_min, t_max, p.1) == Some(p.0)
            &&& forall|i: int|
                idxs.contains(i) ==> beats(
                    p.0,
                    p.1,
                    #[trigger] windowed_num(s, ray, t_min, t_max, i),
                    i,
                )
        },
    }
}

/// Exec-level running best, as its mathematical value.
pub open spec fn best_view(b: Option<(i128, u32)>) -> Option<(int, int)> {
    match b {
        None => None,
        Some(p) => Some((p.0 as int, p.1 as int)),
    }
}

/// The hit record reported for sphere `j` with winning numerator `n`:
/// `point = origin + (n / dir_dot) * direction` and
/// `normal = (point - centre) * radius_inv / SCALE`, floored on the grid.
pub open spec fn spec_hit_record(s: SpheresSoA, ray: Ray, j: int, n: int) -> RayHit {
    let a = dir_dot(ray);
    let px = ray.origin.x + (n * ray.direction.x) / a;
    let py = ray.origin.y + (n * ray.direction.y) / a;
    let pz = ray.origin.z + (n * ray.direction.z) / a;
    let nx = ((px - s.centre_x@[j]) * s.radius_inv@[j]) / (SCALE as int);
    let ny = ((py - s.centre_y@[j]) * s.radius_inv@[j]) / (SCALE as int);
    let nz = ((pz - s.centre_z@[j]) * s.radius_inv@[j]) / (SCALE as int);
    RayHit {
        point: Vec3 { x: px as i128, y: py as i128, z: pz as i128 },
        normal: Vec3 { x: nx as i128, y: ny as i128, z: nz as i128 },
    }
}

/// Full contract of an intersection query on the logical spheres:
/// `None` exactly when no sphere's candidate lies in the window; otherwise
/// the nearest candidate wins, earliest index on ties, the reported index
/// is a logical one (never padding), and the record is determined by the
/// winning sphere and numerator.
pub open spec fn hit_post(
    s: SpheresSoA,
    ray: Ray,
    t_min: int,
    t_max: int,
    r: Option<(RayHit, u32)>,
) -> bool {
    match r {
        None => forall|i: int|
            0 <= i < s.num_spheres ==> #[trigger] windowed_num(s, ray, t_min, t_max, i) is None,
        Some(p) => match windowed_num(s, ray, t_min, t_max, p.1 as int) {
            Some(n) => {
                &&& 0 <= p.1 < s.num_spheres
                &&& forall|i: int|
                    0 <= i < s.num_spheres ==> beats(
                        n,
                        p.1 as int,
                        #[trigger] windowed_num(s, ray, t_min, t_max, i),
                        i,
                    )
                &&& p.0 == spec_hit_record(s, ray, p.1 as int, n)
            },
            None => false,
        },
    }
}

/// The integers in `[lo, hi)`, as a set.
pub open spec fn idx_range(lo: int, hi: int) -> Set<int> {
    Set::new(|j: int| lo <= j < hi)
}

/// The indices of lane `l` after `g` groups of four: `l, l + 4, ...`.
pub open spec fn lane_idxs(l: int, g: int) -> Set<int> {
    Set::new(|j: int| 0 <= j < 4 * g && j % 4 == l)
}

/// Appending the next index of lane `l` extends that lane's index set by
/// one group.
proof fn lemma_lane_insert(l: int, g: int)
    requires
        0 <= l < 4,
        0 <= g,
    ensures
        lane_idxs(l, g).insert(4 * g + l) == lane_idxs(l, g + 1),
{
    lemma_mod_multiples_vanish(g, l, 4);
    lemma_small_mod(l as nat, 4);
    assert forall|j: int| #[trigger] lane_idxs(l, g + 1).contains(j) implies lane_idxs(
        l,
        g,
    ).insert(4 * g + l).contains(j) by {
        if 4 * g <= j {
            lemma_mod_bound(j, 4);
            lemma_mod_multiples_vanish(-g, j, 4);
            assert((j - 4 * g) % 4 == j % 4);
            lemma_small_mod((j - 4 * g) as nat, 4);
            assert(j == 4 * g + l);
        }
    }
    assert(lane_idxs(l, g).insert(4 * g + l) =~= lane_idxs(l, g + 1));
}

/// The four lane index sets after `g` groups cover exactly the first
/// `4 * g` indices.
proof fn lemma_lanes_cover(g: int)
    requires
        0 <= g,
    ensures
        lane_idxs(0, g).union(lane_idxs(1, g)).union(lane_idxs(2, g).union(lane_idxs(3, g)))
            == idx_range(0, 4 * g),
{
    assert forall|j: int| idx_range(0, 4 * g).contains(j) implies lane_idxs(0, g).union(
        lane_idxs(1, g),
    ).union(lane_idxs(2, g).union(lane_idxs(3, g))).contains(j) by {
        lemma_mod_bound(j, 4);
        assert(j % 4 == 0 || j % 4 == 1 || j % 4 == 2 || j % 4 == 3);
    }
    assert(lane_idxs(0, g).union(lane_idxs(1, g)).union(lane_idxs(2, g).union(lane_idxs(3, g)))
        =~= idx_range(0, 4 * g));
}

/// The better of two running bests: strictly smaller numerator wins, and
/// on a tie the smaller index, preserving first-wins scan order.
pub open spec fn spec_merge(x: Option<(int, int)>, y: Option<(int, int)>) -> Option<(int, int)> {
    match (x, y) {
        (Option::None, _) => y,
        (_, Option::None) => x,
        (Option::Some(p), Option::Some(q)) => if p.0 < q.0 {
            x
        } else if q.0 < p.0 {
            y
        } else if p.1 <= q.1 {
            x
        } else {
            y
        },
    }
}

/// Horizontal reduction step: merging the running bests of two disjoint
/// (or any) index sets yields the running best of their union.
proof fn lemma_merge(
    s: SpheresSoA,
    ray: Ray,
    t_min: int,
    t_max: int,
    xs: Set<int>,
    ys: Set<int>,
    x: Option<(int, int)>,
    y: Option<(int, int)>,
)
    requires
        best_over(s, ray, t_min, t_max, xs, x),
        best_over(s, ray, t_min, t_max, ys, y),
    ensures
        best_over(s, ray, t_min, t_max, xs.union(ys), spec_merge(x, y)),
{
    let m = spec_merge(x, y);
    match m {
        Option::None => {
            assert forall|i: int| xs.union(ys).contains(i) implies #[trigger] windowed_num(
                s,
                ray,
                t_min,
                t_max,
                i,
            ) is None by {
                if xs.contains(i) {
                } else {
                    assert(ys.contains(i));
                }
            }
        },
        Option::Some(w) => {
            assert forall|i: int| xs.union(ys).contains(i) implies beats(
                w.0,
                w.1,
                #[trigger] windowed_num(s, ray, t_min, t_max, i),
                i,
            ) by {
                if xs.contains(i) {
                    match x {
                        Option::Some(p) => {
                            assert(beats(p.0, p.1, windowed_num(s, ray, t_min, t_max, i), i));
                        },
                        Option::None => {},
                    }
                } else {
                    assert(ys.contains(i));
                    match y {
                        Option::Some(q) => {
                            assert(beats(q.0, q.1, windowed_num(s, ray, t_min, t_max, i), i));
                        },
                        Option::None => {},
                    }
                }
            }
        },
    }
}

/// Exec horizontal reduction of two running bests.
fn merge_best(x: Option<(i128, u32)>, y: Option<(i128, u32)>) -> (r: Option<(i128, u32)>)
    ensures
        best_view(r) == spec_merge(best_view(x), best_view(y)),
{
    match (x, y) {
        (None, _) => y,
        (_, None) => x,
        (Some(p), Some(q)) => if p.0 < q.0 {
            x
        } else if q.0 < p.0 {
            y
        } else if p.1 <= q.1 {
            x
        } else {
            y
        },
    }
}

/// Bounds on every quadratic piece of a well-formed query, used to rule
/// out overflow in the kernels.
proof fn lemma_query_bounds(s: SpheresSoA, ray: Ray, i: int)
    requires
        s.wf(),
        ray.wf(),
        0 <= i < s.len,
    ensures
        -0x900000000000000 <= spec_nb(s, ray, i) <= 0x900000000000000,
        -0x1C00000000000000 <= spec_c(s, ray, i) <= 0x1C00000000000000,
        0 <= dir_dot(ray) <= 0x300000000000000,
        -0xA50000000000000000000000000000 <= spec_disc(s, ray, i)
            <= 0xA50000000000000000000000000000,
{
    assert(entry_wf(s, i));
    let cox = s.centre_x@[i] - ray.origin.x;
    let coy = s.centre_y@[i] - ray.origin.y;
    let coz = s.centre_z@[i] - ray.origin.z;
    lemma_mul_abs(cox, ray.direction.x as int, 0x30000000, 0x10000000);
    lemma_mul_abs(coy, ray.direction.y as int, 0x30000000, 0x10000000);
    lemma_mul_abs(coz, ray.direction.z as int, 0x30000000, 0x10000000);
    lemma_mul_abs(cox, cox, 0x30000000, 0x30000000);
    lemma_mul_abs(coy, coy, 0x30000000, 0x30000000);
    lemma_mul_abs(coz, coz, 0x30000000, 0x30000000);
    lemma_mul_abs(ray.direction.x as int, ray.direction.x as int, 0x10000000, 0x10000000);
    lemma_mul_abs(ray.direction.y as int, ray.direction.y as int, 0x10000000, 0x10000000);
    lemma_mul_abs(ray.direction.z as int, ray.direction.z as int, 0x10000000, 0x10000000);
    lemma_sq_nonneg(ray.direction.x as int);
    lemma_sq_nonneg(ray.direction.y as int);
    lemma_sq_nonneg(ray.direction.z as int);
    lemma_mul_abs(spec_nb(s, ray, i), spec_nb(s, ray, i), 0x900000000000000, 0x900000000000000);
    lemma_mul_abs(dir_dot(ray), spec_c(s, ray, i), 0x300000000000000, 0x1C00000000000000);
}

/// A strictly positive discriminant needs a non-zero ray direction, so
/// the common denominator is at least one.
proof fn lemma_disc_pos_dir(s: SpheresSoA, ray: Ray, i: int)
    requires
        spec_disc(s, ray, i) > 0,
    ensures
        dir_dot(ray) >= 1,
{
    let dx = ray.direction.x as int;
    let dy = ray.direction.y as int;
    let dz = ray.direction.z as int;
    lemma_sq_nonneg(dx);
    lemma_sq_nonneg(dy);
    lemma_sq_nonneg(dz);
    if dir_dot(ray) == 0 {
        let cox = s.centre_x@[i] - ray.origin.x;
        let coy = s.centre_y@[i] - ray.origin.y;
        let coz = s.centre_z@[i] - ray.origin.z;
        assert(cox * dx == 0 && coy * dy == 0 && coz * dz == 0) by (nonlinear_arith)
            requires
                dx == 0,
                dy == 0,
                dz == 0,
        ;
        assert(spec_nb(s, ray, i) == 0);
        lemma_sq_nonneg(spec_nb(s, ray, i));
        assert(dir_dot(ray) * spec_c(s, ray, i) == 0) by (nonlinear_arith)
            requires
                dir_dot(ray) == 0,
        ;
        assert(false);
    }
}

/// A row with zero squared radius can never produce a candidate, whatever
/// the ray: by the Cauchy-Schwarz inequality its discriminant is never
/// positive. This is what makes the padding sentinels harmless.
pub proof fn lemma_sentinel_misses(s: SpheresSoA, ray: Ray, t_min: int, i: int)
    requires
        s.radius_sq@[i] == 0,
    ensures
        candidate_num(s, ray, t_min, i) is None,
{
    let cox = s.centre_x@[i] - ray.origin.x;
    let coy = s.centre_y@[i] - ray.origin.y;
    let coz = s.centre_z@[i] - ray.origin.z;
    let dx = ray.direction.x as int;
    let dy = ray.direction.y as int;
    let dz = ray.direction.z as int;
    lemma_dot_sq_le(cox, coy, coz, dx, dy, dz);
    lemma_mul_comm(cox * cox + coy * coy + coz * coz, dx * dx + dy * dy + dz * dz);
    assert(spec_disc(s, ray, i) <= 0);
}

/// No false hits from padding: every padding row of a well-formed store
/// misses every ray, so a reported hit index always names a logical sphere.
pub proof fn lemma_padding_never_hits(s: SpheresSoA, ray: Ray, t_min: int, t_max: int, i: int)
    requires
        s.wf(),
        s.num_spheres <= i < s.len,
    ensures
        windowed_num(s, ray, t_min, t_max, i) is None,
{
    assert(s.radius_sq@[i] == 0);
    lemma_sentinel_misses(s, ray, t_min, i);
}

/// Bound on any candidate numerator of a well-formed query.
proof fn lemma_candidate_bound(s: SpheresSoA, ray: Ray, t_min: int, i: int)
    requires
        s.wf(),
        ray.wf(),
        0 <= i < s.len,
    ensures
        match candidate_num(s, ray, t_min, i) {
            Some(n) => -0x1900000000000000 <= n <= 0x1900000000000000,
            None => true,
        },
{
    lemma_query_bounds(s, ray, i);
    let disc = spec_disc(s, ray, i);
    if disc > 0 {
        lemma_sqrt_floor_props(disc);
        let root = sqrt_floor(disc);
        if root > 0x1000000000000000 {
            lemma_sq_mono(0x1000000000000000, root);
            assert(false);
        }
    }
}

impl SpheresSoA {
    /// Builds a store from a list of spheres; fails fast when a sphere is
    /// invalid (radius not in `(0, COORD_MAX]`, centre out of bounds) or
    /// the list is too long. `use_vector` records, once, whether queries
    /// should run the four-lane kernel.
    pub fn new(spheres: &Vec<Sphere>, use_vector: bool) -> (r: Option<SpheresSoA>)
        ensures
            match r {
                Some(s) => {
                    &&& s.wf()
                    &&& spheres@.len() <= MAX_SPHERES
                    &&& forall|i: int| 0 <= i < spheres@.len() ==> (#[trigger] spheres@[i]).wf()
                    &&& s.num_spheres == spheres@.len()
                    &&& s.use_vector == use_vector
                    &&& forall|i: int|
                        0 <= i < spheres@.len() ==> {
                            &&& s.centre_x@[i] == spheres@[i].centre.x
                            &&& s.centre_y@[i] == spheres@[i].centre.y
                            &&& s.centre_z@[i] == spheres@[i].centre.z
                            &&& #[trigger] s.radius_sq@[i] == spheres@[i].radius
                                * spheres@[i].radius
                            &&& s.radius_inv@[i] == (SCALE_SQ as int) / (
                            spheres@[i].radius as int)
                        }
                },
                None => spheres@.len() > MAX_SPHERES || exists|i: int|
                    0 <= i < spheres@.len() && !(#[trigger] spheres@[i]).wf(),
            },
    {
        let n: usize = spheres.len();
        if n > MAX_SPHERES {
            return None;
        }
        let mut k: usize = 0;
        while k < n
            invariant
                k <= n,
                n == spheres@.len(),
                forall|j: int| 0 <= j < k ==> (#[trigger] spheres@[j]).wf(),
            decreases n - k,
        {
            let sp = spheres[k];
            if !(sp.radius > 0 && sp.radius <= COORD_MAX && -COORD_MAX <= sp.centre.x
                && sp.centre.x <= COORD_MAX && -COORD_MAX <= sp.centre.y && sp.centre.y
                <= COORD_MAX && -COORD_MAX <= sp.centre.z && sp.centre.z <= COORD_MAX) {
                proof {
                    assert(!(spheres@[k as int]).wf());
                }
                return None;
            }
            k += 1;
        }
        let padded: usize = ((n + 3) / 4) * 4;
        proof {
            lemma_fundamental_div_mod(n as int + 3, 4);
            lemma_mod_multiples_basic(((n + 3) / 4) as int, 4);
        }
        let mut cx: Vec<i128> = Vec::new();
        let mut cy: Vec<i128> = Vec::new();
        let mut cz: Vec<i128> = Vec::new();
        let mut rs: Vec<i128> = Vec::new();
        let mut ri: Vec<i128> = Vec::new();
        let mut k: usize = 0;
        while k < n
            invariant
                k <= n,
                n == spheres@.len(),
                forall|j: int| 0 <= j < n ==> (#[trigger] spheres@[j]).wf(),
                cx@.len() == k,
                cy@.len() == k,
                cz@.len() == k,
                rs@.len() == k,
                ri@.len() == k,
                forall|j: int| 0 <= j < k ==> #[trigger] cx@[j] == spheres@[j].centre.x,
                forall|j: int| 0 <= j < k ==> #[trigger] cy@[j] == spheres@[j].centre.y,
                forall|j: int| 0 <= j < k ==> #[trigger] cz@[j] == spheres@[j].centre.z,
                forall|j: int|
                    0 <= j < k ==> #[trigger] rs@[j] == spheres@[j].radius * spheres@[j].radius,
                forall|j: int|
                    0 <= j < k ==> #[trigger] ri@[j] == (SCALE_SQ as int) / (
                    spheres@[j].radius as int),
            decreases n - k,
        {
            let sp = spheres[k];
            proof {
                assert((spheres@[k as int]).wf());
                lemma_mul_abs(sp.radius as int, sp.radius as int, COORD_MAX as int, COORD_MAX as int);
            }
            cx.push(sp.centre.x);
            cy.push(sp.centre.y);
            cz.push(sp.centre.z);
            rs.push(sp.radius * sp.radius);
            ri.push(div_floor(SCALE_SQ, sp.radius));
            k += 1;
        }
        let mut k: usize = n;
        while k < padded
            invariant
                n <= k <= padded,
                n == spheres@.len(),
                forall|j: int| 0 <= j < n ==> (#[trigger] spheres@[j]).wf(),
                cx@.len() == k,
                cy@.len() == k,
                cz@.len() == k,
                rs@.len() == k,
                ri@.len() == k,
                forall|j: int| 0 <= j < n ==> #[trigger] cx@[j] == spheres@[j].centre.x,
                forall|j: int| 0 <= j < n ==> #[trigger] cy@[j] == spheres@[j].centre.y,
                forall|j: int| 0 <= j < n ==> #[trigger] cz@[j] == spheres@[j].centre.z,
                forall|j: int|
                    0 <= j < n ==> #[trigger] rs@[j] == spheres@[j].radius * spheres@[j].radius,
                forall|j: int|
                    0 <= j < n ==> #[trigger] ri@[j] == (SCALE_SQ as int) / (
                    spheres@[j].radius as int),
                forall|j: int|
                    n <= j < k ==> #[trigger] cx@[j] == SENTINEL_CENTRE && cy@[j]
                        == SENTINEL_CENTRE && cz@[j] == SENTINEL_CENTRE,
                forall|j: int| n <= j < k ==> #[trigger] rs@[j] == 0 && ri@[j] == 0,
            decreases padded - k,
        {
            cx.push(SENTINEL_CENTRE);
            cy.push(SENTINEL_CENTRE);
            cz.push(SENTINEL_CENTRE);
            rs.push(0);
            ri.push(0);
            k += 1;
        }
        let s = SpheresSoA {
            centre_x: cx,
            centre_y: cy,
            centre_z: cz,
            radius_sq: rs,
            radius_inv: ri,
            len: padded,
            num_spheres: n,
            use_vector,
        };
        proof {
            assert forall|i: int| 0 <= i < s.len implies #[trigger] entry_wf(s, i) by {
                if i < n {
                    assert((spheres@[i]).wf());
                    lemma_mul_abs(
                        spheres@[i].radius as int,
                        spheres@[i].radius as int,
                        COORD_MAX as int,
                        COORD_MAX as int,
                    );
                    assert(spheres@[i].radius * spheres@[i].radius >= 0) by (nonlinear_arith)
                        requires
                            spheres@[i].radius > 0,
                    ;
                    lemma_div_small_quotient(
                        SCALE_SQ as int,
                        spheres@[i].radius as int,
                        SCALE_SQ as int,
                    );
                }
            }
        }
        Some(s)
    }

    /// Centre of the row at `index` (padding rows included).
    pub fn centre(&self, index: u32) -> (v: Vec3)
        requires
            self.wf(),
            (index as int) < self.len,
        ensures
            v == (Vec3 {
                x: self.centre_x@[index as int],
                y: self.centre_y@[index as int],
                z: self.centre_z@[index as int],
            }),
    {
        let i = index as usize;
        Vec3 { x: self.centre_x[i], y: self.centre_y[i], z: self.centre_z[i] }
    }

    /// Squared radius of the row at `index` (padding rows included).
    pub fn radius_sq(&self, index: u32) -> (r: i128)
        requires
            self.wf(),
            (index as int) < self.len,
        ensures
            r == self.radius_sq@[index as int],
    {
        self.radius_sq[index as usize]
    }

    /// One step of the running-minimum scan: fold sphere `i` into the
    /// current best. This is exactly what one lane of the four-lane kernel
    /// does per group, and what the scalar kernel does per sphere.
    fn lane_step(
        &self,
        ray: &Ray,
        t_min: i128,
        t_max: i128,
        a: i128,
        i: usize,
        best: Option<(i128, u32)>,
        idxs: Ghost<Set<int>>,
    ) -> (r: Option<(i128, u32)>)
        requires
            self.wf(),
            ray.wf(),
            -T_BOUND <= t_min <= T_BOUND,
            -T_BOUND <= t_max <= T_BOUND,
            a == dir_dot(*ray),
            i < self.len,
            best_over(*self, *ray, t_min as int, t_max as int, idxs@, best_view(best)),
            forall|j: int| idxs@.contains(j) ==> j < i,
        ensures
            best_over(
                *self,
                *ray,
                t_min as int,
                t_max as int,
                idxs@.insert(i as int),
                best_view(r),
            ),
    {
        let ghost gi = i as int;
        let ghost tn = t_min as int;
        let ghost tx = t_max as int;
        proof {
            assert(entry_wf(*self, gi));
            lemma_query_bounds(*self, *ray, gi);
        }
        let cox: i128 = self.centre_x[i] - ray.origin.x;
        let coy: i128 = self.centre_y[i] - ray.origin.y;
        let coz: i128 = self.centre_z[i] - ray.origin.z;
        let co = Vec3 { x: cox, y: coy, z: coz };
        let nb: i128 = dot3(co, ray.direction);
        let cc: i128 = dot3(co, co);
        let c: i128 = cc - self.radius_sq[i];
        proof {
            lemma_mul_abs(nb as int, nb as int, 0x900000000000000, 0x900000000000000);
            lemma_mul_abs(a as int, c as int, 0x300000000000000, 0x1C00000000000000);
        }
        let disc: i128 = nb * nb - a * c;
        proof {
            assert(nb == spec_nb(*self, *ray, gi));
            assert(c == spec_c(*self, *ray, gi));
            assert(disc == spec_disc(*self, *ray, gi));
        }
        if disc > 0 {
            proof {
                lemma_disc_pos_dir(*self, *ray, gi);
            }
            let root_u: u128 = isqrt(disc as u128);
            proof {
                if root_u > 0x1000000000000000 {
                    lemma_sq_mono(0x1000000000000000, root_u as int);
                    assert(false);
                }
            }
            let root: i128 = root_u as i128;
            let n0: i128 = nb - root;
            let n1: i128 = nb + root;
            proof {
                lemma_mul_abs(n0 as int, SCALE as int, 0x1900000000000000, 0x10000);
                lemma_mul_abs(n1 as int, SCALE as int, 0x1900000000000000, 0x10000);
                lemma_mul_abs(t_min as int, a as int, T_BOUND as int, 0x300000000000000);
                lemma_mul_abs(t_max as int, a as int, T_BOUND as int, 0x300000000000000);
            }
            let nsel: i128 = if n0 * SCALE < t_min * a {
                n1
            } else {
                n0
            };
            proof {
                assert(root == sqrt_floor(spec_disc(*self, *ray, gi)));
                assert(candidate_num(*self, *ray, tn, gi) == Some(nsel as int));
            }
            let accept: bool = nsel * SCALE > t_min * a && (match best {
                None => nsel * SCALE < t_max * a,
                Some(b) => nsel < b.0,
            });
            if accept {
                proof {
                    match best {
                        Some(b) => {
                            assert(windowed_num(*self, *ray, tn, tx, b.1 as int) == Some(
                                b.0 as int,
                            ));
                            lemma_mul_strict_inequality(nsel as int, b.0 as int, SCALE as int);
                        },
                        None => {},
                    }
                    assert(windowed_num(*self, *ray, tn, tx, gi) == Some(nsel as int));
                    assert forall|k: int| idxs@.insert(gi).contains(k) implies beats(
                        nsel as int,
                        gi,
                        #[trigger] windowed_num(*self, *ray, tn, tx, k),
                        k,
                    ) by {
                        if k != gi {
                            assert(idxs@.contains(k));
                            match best_view(best) {
                                Some(p) => {
                                    assert(beats(
                                        p.0,
                                        p.1,
                                        windowed_num(*self, *ray, tn, tx, k),
                                        k,
                                    ));
                                },
                                None => {},
                            }
                        }
                    }
                }
                Some((nsel, i as u32))
            } else {
                proof {
                    assert forall|k: int| idxs@.insert(gi).contains(k) implies {
                        match best_view(best) {
                            None => windowed_num(*self, *ray, tn, tx, k) is None,
                            Some(p) => beats(
                                p.0,
                                p.1,
                                windowed_num(*self, *ray, tn, tx, k),
                                k,
                            ),
                        }
                    } by {
                        if k == gi {
                            match best_view(best) {
                                None => {
                                    assert(windowed_num(*self, *ray, tn, tx, gi) is None);
                                },
                                Some(p) => {
                                    assert(p.1 < gi);
                                },
                            }
                        } else {
                            assert(idxs@.contains(k));
                        }
                    }
                }
                best
            }
        } else {
            proof {
                assert(candidate_num(*self, *ray, tn, gi) is None);
                assert(windowed_num(*self, *ray, tn, tx, gi) is None);
                assert forall|k: int| idxs@.insert(gi).contains(k) && k != gi implies idxs@.contains(
                    k,
                ) by {}
            }
            best
        }
    }

    /// Turns the final running best over all rows into the reported hit:
    /// resolves the winning sphere, computes the surface point and the
    /// outward normal, and rules out padding rows.
    fn finish(
        &self,
        ray: &Ray,
        t_min: i128,
        t_max: i128,
        a: i128,
        best: Option<(i128, u32)>,
    ) -> (r: Option<(RayHit, u32)>)
        requires
            self.wf(),
            ray.wf(),
            -T_BOUND <= t_min <= T_BOUND,
            -T_BOUND <= t_max <= T_BOUND,
            a == dir_dot(*ray),
            best_over(
                *self,
                *ray,
                t_min as int,
                t_max as int,
                idx_range(0, self.len as int),
                best_view(best),
            ),
        ensures
            hit_post(*self, *ray, t_min as int, t_max as int, r),
    {
        let ghost tn = t_min as int;
        let ghost tx = t_max as int;
        match best {
            None => {
                proof {
                    assert forall|i: int| 0 <= i < self.num_spheres implies #[trigger] windowed_num(
                        *self,
                        *ray,
                        tn,
                        tx,
                        i,
                    ) is None by {
                        assert(idx_range(0, self.len as int).contains(i));
                    }
                }
                None
            },
            Some(b) => {
                let bn: i128 = b.0;
                let bj: u32 = b.1;
                let ghost gj = bj as int;
                proof {
                    assert(idx_range(0, self.len as int).contains(gj));
                    if gj >= self.num_spheres {
                        lemma_padding_never_hits(*self, *ray, tn, tx, gj);
                        assert(false);
                    }
                    assert(entry_wf(*self, gj));
                    lemma_candidate_bound(*self, *ray, tn, gj);
                    lemma_disc_pos_dir(*self, *ray, gj);
                    lemma_mul_abs(bn as int, ray.direction.x as int, 0x1900000000000000, 0x10000000);
                    lemma_mul_abs(bn as int, ray.direction.y as int, 0x1900000000000000, 0x10000000);
                    lemma_mul_abs(bn as int, ray.direction.z as int, 0x1900000000000000, 0x10000000);
                    lemma_div_small_quotient(
                        bn as int * ray.direction.x as int,
                        a as int,
                        0x20000000000000000000000,
                    );
                    lemma_div_small_quotient(
                        bn as int * ray.direction.y as int,
                        a as int,
                        0x20000000000000000000000,
                    );
                    lemma_div_small_quotient(
                        bn as int * ray.direction.z as int,
                        a as int,
                        0x20000000000000000000000,
                    );
                }
                let j: usize = bj as usize;
                let px: i128 = ray.origin.x + div_floor(bn * ray.direction.x, a);
                let py: i128 = ray.origin.y + div_floor(bn * ray.direction.y, a);
                let pz: i128 = ray.origin.z + div_floor(bn * ray.direction.z, a);
                let rinv: i128 = self.radius_inv[j];
                proof {
                    lemma_mul_abs(
                        px as int - self.centre_x@[gj],
                        rinv as int,
                        0x80000000000000000000000,
                        0x100000000,
                    );
                    lemma_mul_abs(
                        py as int - self.centre_y@[gj],
                        rinv as int,
                        0x80000000000000000000000,
                        0x100000000,
                    );
                    lemma_mul_abs(
                        pz as int - self.centre_z@[gj],
                        rinv as int,
                        0x80000000000000000000000,
                        0x100000000,
                    );
                }
                let nx: i128 = div_floor((px - self.centre_x[j]) * rinv, SCALE);
                let ny: i128 = div_floor((py - self.centre_y[j]) * rinv, SCALE);
                let nz: i128 = div_floor((pz - self.centre_z[j]) * rinv, SCALE);
                let h = RayHit {
                    point: Vec3 { x: px, y: py, z: pz },
                    normal: Vec3 { x: nx, y: ny, z: nz },
                };
                proof {
                    assert(h == spec_hit_record(*self, *ray, gj, bn as int));
                    assert forall|i: int| 0 <= i < self.num_spheres implies beats(
                        bn as int,
                        gj,
                        #[trigger] windowed_num(*self, *ray, tn, tx, i),
                        i,
                    ) by {
                        assert(idx_range(0, self.len as int).contains(i));
                    }
                }
                Some((h, bj))
            },
        }
    }

    /// Scalar intersection kernel: one running-minimum pass over every
    /// row of the store. Returns the nearest hit strictly inside
    /// `(t_min, t_max)`, earliest sphere first on exact ties, or `None`.
    pub fn hit_scalar(&self, ray: &Ray, t_min: i128, t_max: i128) -> (r: Option<(RayHit, u32)>)
        requires
            self.wf(),
            ray.wf(),
            -T_BOUND <= t_min <= T_BOUND,
            -T_BOUND <= t_max <= T_BOUND,
        ensures
            hit_post(*self, *ray, t_min as int, t_max as int, r),
    {
        let a: i128 = dot3(ray.direction, ray.direction);
        let mut best: Option<(i128, u32)> = None;
        let mut i: usize = 0;
        while i < self.len
            invariant
                self.wf(),
                ray.wf(),
                -T_BOUND <= t_min <= T_BOUND,
                -T_BOUND <= t_max <= T_BOUND,
                a == dir_dot(*ray),
                i <= self.len,
                best_over(
                    *self,
                    *ray,
                    t_min as int,
                    t_max as int,
                    idx_range(0, i as int),
                    best_view(best),
                ),
            decreases self.len - i,
        {
            let stepped = self.lane_step(
                ray,
                t_min,
                t_max,
                a,
                i,
                best,
                Ghost(idx_range(0, i as int)),
            );
            proof {
                assert(idx_range(0, i as int).insert(i as int) =~= idx_range(0, i as int + 1));
            }
            best = stepped;
            i += 1;
        }
        self.finish(ray, t_min, t_max, a, best)
    }

    /// Four-lane intersection kernel: processes the rows in groups of
    /// four, each lane keeping its own running best with no per-sphere
    /// branching, then reduces the four lane bests horizontally. Thanks
    /// to the padding invariant it always consumes full groups, and it
    /// satisfies exactly the same contract as `hit_scalar`.
    pub fn hit_vector(&self, ray: &Ray, t_min: i128, t_max: i128) -> (r: Option<(RayHit, u32)>)
        requires
            self.wf(),
            ray.wf(),
            -T_BOUND <= t_min <= T_BOUND,
            -T_BOUND <= t_max <= T_BOUND,
        ensures
            hit_post(*self, *ray, t_min as int, t_max as int, r),
    {
        let a: i128 = dot3(ray.direction, ray.direction);
        let groups: usize = self.len / 4;
        proof {
            assert(self.len as int == 4 * groups as int);
        }
        let mut b0: Option<(i128, u32)> = None;
        let mut b1: Option<(i128, u32)> = None;
        let mut b2: Option<(i128, u32)> = None;
        let mut b3: Option<(i128, u32)> = None;
        let mut g: usize = 0;
        while g < groups
            invariant
                self.wf(),
                ray.wf(),
                -T_BOUND <= t_min <= T_BOUND,
                -T_BOUND <= t_max <= T_BOUND,
                a == dir_dot(*ray),
                g <= groups,
                self.len as int == 4 * groups as int,
                best_over(
                    *self,
                    *ray,
                    t_min as int,
                    t_max as int,
                    lane_idxs(0, g as int),
                    best_view(b0),
                ),
                best_over(
                    *self,
                    *ray,
                    t_min as int,
                    t_max as int,
                    lane_idxs(1, g as int),
                    best_view(b1),
                ),
                best_over(
                    *self,
                    *ray,
                    t_min as int,
                    t_max as int,
                    lane_idxs(2, g as int),
                    best_view(b2),
                ),
                best_over(
                    *self,
                    *ray,
                    t_min as int,
                    t_max as int,
                    lane_idxs(3, g as int),
                    best_view(b3),
                ),
            decreases groups - g,
        {
            let base: usize = 4 * g;
            let s0 = self.lane_step(ray, t_min, t_max, a, base, b0, Ghost(lane_idxs(0, g as int)));
            let s1 = self.lane_step(
                ray,
                t_min,
                t_max,
                a,
                base + 1,
                b1,
                Ghost(lane_idxs(1, g as int)),
            );
            let s2 = self.lane_step(
                ray,
                t_min,
                t_max,
                a,
                base + 2,
                b2,
                Ghost(lane_idxs(2, g as int)),
            );
            let s3 = self.lane_step(
                ray,
                t_min,
                t_max,
                a,
                base + 3,
                b3,
                Ghost(lane_idxs(3, g as int)),
            );
            proof {
                lemma_lane_insert(0, g as int);
                lemma_lane_insert(1, g as int);
                lemma_lane_insert(2, g as int);
                lemma_lane_insert(3, g as int);
            }
            b0 = s0;
            b1 = s1;
            b2 = s2;
            b3 = s3;
            g += 1;
        }
        let m01 = merge_best(b0, b1);
        let m23 = merge_best(b2, b3);
        let m = merge_best(m01, m23);
        proof {
            let gg = groups as int;
            lemma_merge(
                *self,
                *ray,
                t_min as int,
                t_max as int,
                lane_idxs(0, gg),
                lane_idxs(1, gg),
                best_view(b0),
                best_view(b1),
            );
            lemma_merge(
                *self,
                *ray,
                t_min as int,
                t_max as int,
                lane_idxs(2, gg),
                lane_idxs(3, gg),
                best_view(b2),
                best_view(b3),
            );
            lemma_merge(
                *self,
                *ray,
                t_min as int,
                t_max as int,
                lane_idxs(0, gg).union(lane_idxs(1, gg)),
                lane_idxs(2, gg).union(lane_idxs(3, gg)),
                best_view(m01),
                best_view(m23),
            );
            lemma_lanes_cover(gg);
        }
        self.finish(ray, t_min, t_max, a, m)
    }

    /// The single public intersection entry point: dispatches to the
    /// four-lane kernel when the store was built for it, else to the
    /// scalar kernel. Both kernels meet the same contract, so callers
    /// never observe which one ran.
    pub fn hit(&self, ray: &Ray, t_min: i128, t_max: i128) -> (r: Option<(RayHit, u32)>)
        requires
            self.wf(),
            ray.wf(),
            -T_BOUND <= t_min <= T_BOUND,
            -T_BOUND <= t_max <= T_BOUND,
        ensures
            hit_post(*self, *ray, t_min as int, t_max as int, r),
    {
        if self.use_vector {
            self.hit_vector(ray, t_min, t_max)
        } else {
            self.hit_scalar(ray, t_min, t_max)
        }
    }
}

/// Kernel equivalence: `hit_post` pins the result down completely, so any
/// two results satisfying it for the same store, ray and window are equal.
/// Both kernels ensure `hit_post`; hence they always return the same
/// hit-or-miss verdict, point, normal and sphere index.
pub proof fn lemma_hit_post_deterministic(
    s: SpheresSoA,
    ray: Ray,
    t_min: int,
    t_max: int,
    r1: Option<(RayHit, u32)>,
    r2: Option<(RayHit, u32)>,
)
    requires
        hit_post(s, ray, t_min, t_max, r1),
        hit_post(s, ray, t_min, t_max, r2),
    ensures
        r1 == r2,
{
    match (r1, r2) {
        (Option::None, Option::None) => {},
        (Option::Some(p1), Option::None) => {
            assert(windowed_num(s, ray, t_min, t_max, p1.1 as int) is None);
            assert(false);
        },
        (Option::None, Option::Some(p2)) => {
            assert(windowed_num(s, ray, t_min, t_max, p2.1 as int) is None);
            assert(false);
        },
        (Option::Some(p1), Option::Some(p2)) => {
            let j1 = p1.1 as int;
            let j2 = p2.1 as int;
            let w1 = windowed_num(s, ray, t_min, t_max, j1);
            let w2 = windowed_num(s, ray, t_min, t_max, j2);
            assert(beats(w1->Some_0, j1, w2, j2));
            assert(beats(w2->Some_0, j2, w1, j1));
            assert(j1 == j2);
            assert(p1.1 == p2.1);
            assert(p1.0 == p2.0);
        },
    }
}

/// Tangent boundary policy: a ray that exactly grazes a sphere (zero
/// discriminant) misses that sphere, at every acceptance window.
pub proof fn lemma_tangent_is_miss(s: SpheresSoA, ray: Ray, t_min: int, t_max: int, i: int)
    requires
        spec_disc(s, ray, i) == 0,
    ensures
        windowed_num(s, ray, t_min, t_max, i) is None,
{
}

/// Outward normal, in exact form: whenever a query reports sphere `j`
/// with winning numerator `n` (as `hit_post` states), the record's normal
/// never points inward: its dot product with `point - centre` is
/// nonnegative, and strictly positive unless rounding collapsed the
/// normal to zero. (That its magnitude is one world unit within rounding
/// is checked by the tests.)
pub proof fn lemma_normal_points_outward(
    s: SpheresSoA,
    ray: Ray,
    t_min: int,
    t_max: int,
    j: int,
    n: int,
)
    requires
        s.wf(),
        ray.wf(),
        0 <= j < s.len,
        windowed_num(s, ray, t_min, t_max, j) == Some(n),
    ensures
        ({
            let h = spec_hit_record(s, ray, j, n);
            let ux = h.point.x - s.centre_x@[j];
            let uy = h.point.y - s.centre_y@[j];
            let uz = h.point.z - s.centre_z@[j];
            &&& h.normal.x * ux + h.normal.y * uy + h.normal.z * uz >= 0
            &&& !(h.normal.x == 0 && h.normal.y == 0 && h.normal.z == 0) ==> h.normal.x * ux
                + h.normal.y * uy + h.normal.z * uz > 0
        }),
{
    assert(entry_wf(s, j));
    lemma_candidate_bound(s, ray, t_min, j);
    lemma_disc_pos_dir(s, ray, j);
    let a = dir_dot(ray);
    let rinv = s.radius_inv@[j] as int;
    lemma_mul_abs(n, ray.direction.x as int, 0x1900000000000000, 0x10000000);
    lemma_mul_abs(n, ray.direction.y as int, 0x1900000000000000, 0x10000000);
    lemma_mul_abs(n, ray.direction.z as int, 0x1900000000000000, 0x10000000);
    lemma_div_small_quotient(n * ray.direction.x, a, 0x20000000000000000000000);
    lemma_div_small_quotient(n * ray.direction.y, a, 0x20000000000000000000000);
    lemma_div_small_quotient(n * ray.direction.z, a, 0x20000000000000000000000);
    let px = ray.origin.x + (n * ray.direction.x) / a;
    let py = ray.origin.y + (n * ray.direction.y) / a;
    let pz = ray.origin.z + (n * ray.direction.z) / a;
    let ux = px - s.centre_x@[j];
    let uy = py - s.centre_y@[j];
    let uz = pz - s.centre_z@[j];
    lemma_mul_abs(ux, rinv, 0x80000000000000000000000, 0x100000000);
    lemma_mul_abs(uy, rinv, 0x80000000000000000000000, 0x100000000);
    lemma_mul_abs(uz, rinv, 0x80000000000000000000000, 0x100000000);
    lemma_div_small_quotient(ux * rinv, SCALE as int, 0x8000000000000000000000000000000);
    lemma_div_small_quotient(uy * rinv, SCALE as int, 0x8000000000000000000000000000000);
    lemma_div_small_quotient(uz * rinv, SCALE as int, 0x8000000000000000000000000000000);
    lemma_scaled_floor_sign(ux, rinv, SCALE as int);
    lemma_scaled_floor_sign(uy, rinv, SCALE as int);
    lemma_scaled_floor_sign(uz, rinv, SCALE as int);
}

/// Surface property, in exact form: a candidate numerator `n` of sphere
/// `i` solves that sphere's quadratic. With `nb`, `a`, `c` the quadratic
/// pieces and `t = n / a` the hit parameter, the residual
/// `n * n - 2 * nb * n + a * c` (which is `a * a` times the quadratic at
/// `t`) would be zero for the exact real root; here it stays within one
/// integer-square-root rounding step, `[-2 * root, 0]`. The reported
/// surface point is `origin + t * direction` rounded to the grid.
pub proof fn lemma_candidate_solves_quadratic(s: SpheresSoA, ray: Ray, t_min: int, i: int)
    ensures
        match candidate_num(s, ray, t_min, i) {
            Some(n) => {
                let nb = spec_nb(s, ray, i);
                let a = dir_dot(ray);
                let c = spec_c(s, ray, i);
                let root = sqrt_floor(spec_disc(s, ray, i));
                &&& n * n - 2 * (nb * n) + a * c == root * root - spec_disc(s, ray, i)
                &&& -2 * root <= n * n - 2 * (nb * n) + a * c <= 0
            },
            None => true,
        },
{
    let disc = spec_disc(s, ray, i);
    if disc > 0 {
        lemma_sqrt_floor_props(disc);
        let nb = spec_nb(s, ray, i);
        let a = dir_dot(ray);
        let c = spec_c(s, ray, i);
        let root = sqrt_floor(disc);
        assert((nb + root) * (nb + root) - 2 * (nb * (nb + root)) + a * c == root * root - (nb * nb
            - a * c)) by (nonlinear_arith);
        assert((nb - root) * (nb - root) - 2 * (nb * (nb - root)) + a * c == root * root - (nb * nb
            - a * c)) by (nonlinear_arith);
        assert((root + 1) * (root + 1) == root * root + 2 * root + 1) by (nonlinear_arith);
    }
}

} // verus!
