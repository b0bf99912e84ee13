use vstd::prelude::*;

verus! {

/// Fixed-point one for rotation components: a unit quaternion has each
/// component in `[-QUAT_ONE, QUAT_ONE]`.
pub const QUAT_ONE: i64 = 10000;

/// Largest magnitude of a coordinate, in millimetres (a thousand kilometres).
pub const COORD_MAX: i64 = 1000000000;

/// Largest configurable force, in millinewtons.
pub const FORCE_MAX: u64 = 1000000000000;

/// A position or offset in millimetres.
#[derive(Clone, Copy, Debug, PartialEq, Eq, Structural)]
pub struct Vec3 {
    pub x: i64,
    pub y: i64,
    pub z: i64,
}

/// A rotation as a quaternion in fixed point (`QUAT_ONE` stands for one).
#[derive(Clone, Copy, Debug, PartialEq, Eq, Structural)]
pub struct Quat {
    pub w: i64,
    pub x: i64,
    pub y: i64,
    pub z: i64,
}

pub open spec fn coord_ok(v: Vec3) -> bool {
    -COORD_MAX <= v.x <= COORD_MAX && -COORD_MAX <= v.y <= COORD_MAX && -COORD_MAX <= v.z
        <= COORD_MAX
}

pub open spec fn quat_ok(q: Quat) -> bool {
    -QUAT_ONE <= q.w <= QUAT_ONE && -QUAT_ONE <= q.x <= QUAT_ONE && -QUAT_ONE <= q.y <= QUAT_ONE
        && -QUAT_ONE <= q.z <= QUAT_ONE
}

/// Division rounding toward zero, as integer division on machine words does.
pub open spec fn div_trunc(a: int, d: int) -> int {
    if a >= 0 {
        a / d
    } else {
        -((-a) / d)
    }
}

/// Hamilton product, rescaled to fixed point: the rotation `b` followed by `a`.
pub open spec fn quat_mul(a: Quat, b: Quat) -> (int, int, int, int) {
    (
        div_trunc(a.w * b.w - a.x * b.x - a.y * b.y - a.z * b.z, QUAT_ONE as int),
        div_trunc(a.w * b.x + a.x * b.w + a.y * b.z - a.z * b.y, QUAT_ONE as int),
        div_trunc(a.w * b.y - a.x * b.z + a.y * b.w + a.z * b.x, QUAT_ONE as int),
        div_trunc(a.w * b.z + a.x * b.y - a.y * b.x + a.z * b.w, QUAT_ONE as int),
    )
}

/// `v` rotated by the quaternion `(w, x, y, z)`, through its rotation matrix.
pub open spec fn rotate(q: (int, int, int, int), v: Vec3) -> (int, int, int) {
    let (w, x, y, z) = q;
    let s = (QUAT_ONE * QUAT_ONE) as int;
    (
        div_trunc(
            (w * w + x * x - y * y - z * z) * v.x + 2 * (x * y - w * z) * v.y + 2 * (x * z + w * y)
                * v.z,
            s,
        ),
        div_trunc(
            2 * (x * y + w * z) * v.x + (w * w - x * x + y * y - z * z) * v.y + 2 * (y * z - w * x)
                * v.z,
            s,
        ),
        div_trunc(
            2 * (x * z - w * y) * v.x + 2 * (y * z + w * x) * v.y + (w * w - x * x - y * y + z * z)
                * v.z,
            s,
        ),
    )
}

/// The point a held object is driven toward: the player's position, plus the
/// head's local offset scaled by `head_permille / 1000`, plus `forward` turned
/// by the player's rotation followed by the head's.
pub open spec fn anchor(
    player_pos: Vec3,
    player_rot: Quat,
    head_pos: Vec3,
    head_rot: Quat,
    head_permille: int,
    forward: Vec3,
) -> (int, int, int) {
    let r = rotate(quat_mul(player_rot, head_rot), forward);
    (
        player_pos.x + div_trunc(head_pos.x * head_permille, 1000) + r.0,
        player_pos.y + div_trunc(head_pos.y * head_permille, 1000) + r.1,
        player_pos.z + div_trunc(head_pos.z * head_permille, 1000) + r.2,
    )
}

/// `r` is the least natural number whose square reaches `s`.
pub open spec fn is_ceil_sqrt(s: int, r: int) -> bool {
    r >= 0 && r * r >= s && (r == 0 || (r - 1) * (r - 1) < s)
}

pub open spec fn ceil_sqrt(s: int) -> int {
    choose|r: int| is_ceil_sqrt(s, r)
}

/// The force magnitude at distance `dist`: proportional to it, reaching
/// `max_force` at `saturation` and staying there beyond.
pub open spec fn force_magnitude(dist: int, max_force: int, saturation: int) -> int {
    if dist >= saturation {
        max_force
    } else {
        dist * max_force / saturation
    }
}

/// The corrective force for the displacement `d` (from the object to its
/// anchor): along `d`, of magnitude `force_magnitude` of its length, each
/// component rounded toward zero.
pub open spec fn corrective_force(d: (int, int, int), max_force: int, saturation: int) -> (
    int,
    int,
    int,
) {
    let dist = ceil_sqrt(d.0 * d.0 + d.1 * d.1 + d.2 * d.2);
    let f = force_magnitude(dist, max_force, saturation);
    if dist == 0 {
        (0, 0, 0)
    } else {
        (div_trunc(d.0 * f, dist), div_trunc(d.1 * f, dist), div_trunc(d.2 * f, dist))
    }
}

pub open spec fn norm_sq(v: (int, int, int)) -> int {
    v.0 * v.0 + v.1 * v.1 + v.2 * v.2
}

/// Settings of the hold-force controller.
#[derive(Clone, Copy, Debug, PartialEq, Eq, Structural)]
pub struct HoldConfig {
    /// Offset of the anchor in front of the viewpoint, before rotation.
    pub forward: Vec3,
    /// Scale of the head's local offset, in thousandths.
    pub head_permille: i64,
    /// Upper bound of the corrective force, in millinewtons.
    pub max_force: u64,
    /// Distance at which the force reaches `max_force`, in millimetres.
    pub saturation_distance: u64,
    /// Constant upward force that offsets gravity, in millinewtons.
    pub lift: i64,
}

impl HoldConfig {
    pub open spec fn valid(&self) -> bool {
        &&& coord_ok(self.forward)
        &&& -1000 <= self.head_permille <= 1000
        &&& self.max_force <= FORCE_MAX
        &&& self.saturation_distance > 0
        &&& -(FORCE_MAX as int) <= self.lift <= FORCE_MAX
    }
}

/// The forces to apply to one held object in one tick.
#[derive(Clone, Copy, Debug, PartialEq, Eq, Structural)]
pub struct ForceCommand {
    pub object: u64,
    /// Drives the object toward its anchor.
    pub corrective: Vec3,
    /// Offsets gravity.
    pub lift: Vec3,
}

/// What the controller reads of one held object and its holder in a tick.
/// A transform the host could not provide is `None`.
#[derive(Clone, Copy, Debug, PartialEq, Eq, Structural)]
pub struct HoldSample {
    pub object: u64,
    pub object_pos: Option<Vec3>,
    pub player_pos: Option<Vec3>,
    pub player_rot: Option<Quat>,
    pub head_pos: Option<Vec3>,
    pub head_rot: Option<Quat>,
}

fn div_trunc_exec(a: i128, d: i128) -> (r: i128)
    requires
        d > 0,
        a > i128::MIN,
    ensures
        r == div_trunc(a as int, d as int),
        a >= 0 ==> 0 <= r <= a,
        a < 0 ==> a <= r <= 0,
{
    if a >= 0 {
        proof {
            assert(a / d <= a) by (nonlinear_arith)
                requires
                    a >= 0,
                    d > 0,
            ;
        }
        a / d
    } else {
        let n = -a;
        proof {
            assert(n / d <= n) by (nonlinear_arith)
                requires
                    n >= 0,
                    d > 0,
            ;
        }
        -(n / d)
    }
}

proof fn lemma_mul_le(a: int, b: int, ba: int, bb: int)
    requires
        -ba <= a <= ba,
        -bb <= b <= bb,
    ensures
        -(ba * bb) <= a * b <= ba * bb,
{
    assert(-(ba * bb) <= a * b <= ba * bb) by (nonlinear_arith)
        requires
            -ba <= a <= ba,
            -bb <= b <= bb,
    ;
}

proof fn lemma_div_trunc_bound(a: int, d: int, m: int)
    requires
        d > 0,
        -(m * d) <= a <= m * d,
    ensures
        -m <= div_trunc(a, d) <= m,
{
    if a >= 0 {
        assert(a / d <= m) by (nonlinear_arith)
            requires
                a >= 0,
                d > 0,
                a <= m * d,
        ;
        assert(a / d >= 0) by (nonlinear_arith)
            requires
                a >= 0,
                d > 0,
        ;
    } else {
        assert((-a) / d <= m) by (nonlinear_arith)
            requires
                -a >= 0,
                d > 0,
                -a <= m * d,
        ;
        assert((-a) / d >= 0) by (nonlinear_arith)
            requires
                -a >= 0,
                d > 0,
        ;
    }
}

/// The product of two rotations, rescaled to fixed point.
pub fn mul_quat(a: Quat, b: Quat) -> (r: Quat)
    requires
        quat_ok(a),
        quat_ok(b),
    ensures
        (r.w as int, r.x as int, r.y as int, r.z as int) == quat_mul(a, b),
        -4 * QUAT_ONE <= r.w <= 4 * QUAT_ONE,
        -4 * QUAT_ONE <= r.x <= 4 * QUAT_ONE,
        -4 * QUAT_ONE <= r.y <= 4 * QUAT_ONE,
        -4 * QUAT_ONE <= r.z <= 4 * QUAT_ONE,
{
    let one = QUAT_ONE as i128;
    let (aw, ax, ay, az) = (a.w as i128, a.x as i128, a.y as i128, a.z as i128);
    let (bw, bx, by, bz) = (b.w as i128, b.x as i128, b.y as i128, b.z as i128);
    proof {
        let o = QUAT_ONE as int;
        lemma_mul_le(aw as int, bw as int, o, o);
        lemma_mul_le(aw as int, bx as int, o, o);
        lemma_mul_le(aw as int, by as int, o, o);
        lemma_mul_le(aw as int, bz as int, o, o);
        lemma_mul_le(ax as int, bw as int, o, o);
        lemma_mul_le(ax as int, bx as int, o, o);
        lemma_mul_le(ax as int, by as int, o, o);
        lemma_mul_le(ax as int, bz as int, o, o);
        lemma_mul_le(ay as int, bw as int, o, o);
        lemma_mul_le(ay as int, bx as int, o, o);
        lemma_mul_le(ay as int, by as int, o, o);
        lemma_mul_le(ay as int, bz as int, o, o);
        lemma_mul_le(az as int, bw as int, o, o);
        lemma_mul_le(az as int, bx as int, o, o);
        lemma_mul_le(az as int, by as int, o, o);
        lemma_mul_le(az as int, bz as int, o, o);
    }
    let w = aw * bw - ax * bx - ay * by - az * bz;
    let x = aw * bx + ax * bw + ay * bz - az * by;
    let y = aw * by - ax * bz + ay * bw + az * bx;
    let z = aw * bz + ax * by - ay * bx + az * bw;
    proof {
        lemma_div_trunc_bound(w as int, one as int, 4 * QUAT_ONE);
        lemma_div_trunc_bound(x as int, one as int, 4 * QUAT_ONE);
        lemma_div_trunc_bound(y as int, one as int, 4 * QUAT_ONE);
        lemma_div_trunc_bound(z as int, one as int, 4 * QUAT_ONE);
    }
    let rw = div_trunc_exec(w, one);
    let rx = div_trunc_exec(x, one);
    let ry = div_trunc_exec(y, one);
    let rz = div_trunc_exec(z, one);
    Quat { w: rw as i64, x: rx as i64, y: ry as i64, z: rz as i64 }
}

/// `v` turned by `q`, whose components may reach four times `QUAT_ONE` (a
/// product of two rotations).
pub fn rotate_vec(q: Quat, v: Vec3) -> (r: Vec3)
    requires
        -4 * QUAT_ONE <= q.w <= 4 * QUAT_ONE,
        -4 * QUAT_ONE <= q.x <= 4 * QUAT_ONE,
        -4 * QUAT_ONE <= q.y <= 4 * QUAT_ONE,
        -4 * QUAT_ONE <= q.z <= 4 * QUAT_ONE,
        coord_ok(v),
    ensures
        (r.x as int, r.y as int, r.z as int) == rotate(
            (q.w as int, q.x as int, q.y as int, q.z as int),
            v,
        ),
        -192 * COORD_MAX <= r.x <= 192 * COORD_MAX,
        -192 * COORD_MAX <= r.y <= 192 * COORD_MAX,
        -192 * COORD_MAX <= r.z <= 192 * COORD_MAX,
{
    let w = q.w as i128;
    let x = q.x as i128;
    let y = q.y as i128;
    let z = q.z as i128;
    let vx = v.x as i128;
    let vy = v.y as i128;
    let vz = v.z as i128;
    proof {
        let b: int = 40000;
        lemma_mul_le(w as int, w as int, b, b);
        lemma_mul_le(x as int, x as int, b, b);
        lemma_mul_le(y as int, y as int, b, b);
        lemma_mul_le(z as int, z as int, b, b);
        lemma_mul_le(x as int, y as int, b, b);
        lemma_mul_le(w as int, z as int, b, b);
        lemma_mul_le(x as int, z as int, b, b);
        lemma_mul_le(w as int, y as int, b, b);
        lemma_mul_le(y as int, z as int, b, b);
        lemma_mul_le(w as int, x as int, b, b);
    }
    let ww = w * w;
    let xx = x * x;
    let yy = y * y;
    let zz = z * z;
    let c00 = ww + xx - yy - zz;
    let c01 = 2 * (x * y - w * z);
    let c02 = 2 * (x * z + w * y);
    let c10 = 2 * (x * y + w * z);
    let c11 = ww - xx + yy - zz;
    let c12 = 2 * (y * z - w * x);
    let c20 = 2 * (x * z - w * y);
    let c21 = 2 * (y * z + w * x);
    let c22 = ww - xx - yy + zz;
    let s: i128 = 100000000;
    proof {
        let c = 64 * QUAT_ONE * QUAT_ONE;
        let m = COORD_MAX as int;
        lemma_mul_le(c00 as int, vx as int, c, m);
        lemma_mul_le(c01 as int, vy as int, c, m);
        lemma_mul_le(c02 as int, vz as int, c, m);
        lemma_mul_le(c10 as int, vx as int, c, m);
        lemma_mul_le(c11 as int, vy as int, c, m);
        lemma_mul_le(c12 as int, vz as int, c, m);
        lemma_mul_le(c20 as int, vx as int, c, m);
        lemma_mul_le(c21 as int, vy as int, c, m);
        lemma_mul_le(c22 as int, vz as int, c, m);
    }
    let ax = c00 * vx + c01 * vy + c02 * vz;
    let ay = c10 * vx + c11 * vy + c12 * vz;
    let az = c20 * vx + c21 * vy + c22 * vz;
    proof {
        lemma_div_trunc_bound(ax as int, s as int, 192 * COORD_MAX);
        lemma_div_trunc_bound(ay as int, s as int, 192 * COORD_MAX);
        lemma_div_trunc_bound(az as int, s as int, 192 * COORD_MAX);
    }
    let rx = div_trunc_exec(ax, s);
    let ry = div_trunc_exec(ay, s);
    let rz = div_trunc_exec(az, s);
    Vec3 { x: rx as i64, y: ry as i64, z: rz as i64 }
}

/// The anchor of a held object, from its holder's transform and head transform.
pub fn compute_anchor(
    player_pos: Vec3,
    player_rot: Quat,
    head_pos: Vec3,
    head_rot: Quat,
    cfg: &HoldConfig,
) -> (r: Vec3)
    requires
        coord_ok(player_pos),
        coord_ok(head_pos),
        quat_ok(player_rot),
        quat_ok(head_rot),
        cfg.valid(),
    ensures
        (r.x as int, r.y as int, r.z as int) == anchor(
            player_pos,
            player_rot,
            head_pos,
            head_rot,
            cfg.head_permille as int,
            cfg.forward,
        ),
        -194 * COORD_MAX <= r.x <= 194 * COORD_MAX,
        -194 * COORD_MAX <= r.y <= 194 * COORD_MAX,
        -194 * COORD_MAX <= r.z <= 194 * COORD_MAX,
{
    let look = mul_quat(player_rot, head_rot);
    let turned = rotate_vec(look, cfg.forward);
    let k = cfg.head_permille as i128;
    proof {
        lemma_mul_le(head_pos.x as int, k as int, COORD_MAX as int, 1000);
        lemma_mul_le(head_pos.y as int, k as int, COORD_MAX as int, 1000);
        lemma_mul_le(head_pos.z as int, k as int, COORD_MAX as int, 1000);
        lemma_div_trunc_bound(head_pos.x * k, 1000, COORD_MAX as int);
        lemma_div_trunc_bound(head_pos.y * k, 1000, COORD_MAX as int);
        lemma_div_trunc_bound(head_pos.z * k, 1000, COORD_MAX as int);
    }
    let hx = div_trunc_exec(head_pos.x as i128 * k, 1000);
    let hy = div_trunc_exec(head_pos.y as i128 * k, 1000);
    let hz = div_trunc_exec(head_pos.z as i128 * k, 1000);
    Vec3 {
        x: player_pos.x + hx as i64 + turned.x,
        y: player_pos.y + hy as i64 + turned.y,
        z: player_pos.z + hz as i64 + turned.z,
    }
}

/// The least natural number whose square reaches `s`.
pub fn ceil_sqrt_exec(s: u128) -> (r: u128)
    requires
        s <= 0x1_0000_0000_0000_0000_0000,
    ensures
        is_ceil_sqrt(s as int, r as int),
        r as int == ceil_sqrt(s as int),
        r <= 0x100_0000_0000,
{
    let mut lo: u128 = 0;
    let mut hi: u128 = 0x100_0000_0000;
    while lo < hi
        invariant
            lo <= hi <= 0x100_0000_0000,
            hi * hi >= s,
            lo == 0 || (lo - 1) * (lo - 1) < s,
        decreases hi - lo,
    {
        let mid = lo + (hi - lo) / 2;
        proof {
            lemma_mul_le(mid as int, mid as int, 0x100_0000_0000, 0x100_0000_0000);
        }
        if mid * mid >= s {
            hi = mid;
        } else {
            lo = mid + 1;
        }
    }
    proof {
        lemma_ceil_sqrt_unique(s as int, lo as int);
    }
    lo
}

proof fn lemma_ceil_sqrt_unique(s: int, r: int)
    requires
        is_ceil_sqrt(s, r),
    ensures
        ceil_sqrt(s) == r,
{
    let c = ceil_sqrt(s);
    assert(is_ceil_sqrt(s, c));
    if c < r {
        assert((r - 1) * (r - 1) >= c * c) by (nonlinear_arith)
            requires
                0 <= c <= r - 1,
        ;
    } else if r < c {
        assert((c - 1) * (c - 1) >= r * r) by (nonlinear_arith)
            requires
                0 <= r <= c - 1,
        ;
    }
}

proof fn lemma_force_magnitude_le(dist: int, max_force: int, saturation: int)
    requires
        dist >= 0,
        max_force >= 0,
        saturation > 0,
    ensures
        0 <= force_magnitude(dist, max_force, saturation) <= max_force,
{
    if dist < saturation {
        assert(dist * max_force <= saturation * max_force) by (nonlinear_arith)
            requires
                dist < saturation,
                max_force >= 0,
        ;
        assert(dist * max_force / saturation <= max_force) by (nonlinear_arith)
            requires
                dist * max_force <= saturation * max_force,
                saturation > 0,
        ;
        assert(dist * max_force / saturation >= 0) by (nonlinear_arith)
            requires
                dist >= 0,
                max_force >= 0,
                saturation > 0,
        ;
    }
}

/// One component scaled by `f / dist`: its square times `dist²` stays under
/// the square of the component times `f`.
proof fn lemma_scaled_component(a: int, f: int, dist: int)
    requires
        dist > 0,
        f >= 0,
    ensures
        div_trunc(a * f, dist) * div_trunc(a * f, dist) * (dist * dist) <= (a * a) * (f * f),
{
    let n = if a >= 0 {
        a
    } else {
        -a
    };
    assert(n * f >= 0) by (nonlinear_arith)
        requires
            n >= 0,
            f >= 0,
    ;
    let q = (n * f) / dist;
    assert(q * dist <= n * f && q >= 0) by (nonlinear_arith)
        requires
            n * f >= 0,
            dist > 0,
            q == (n * f) / dist,
    ;
    if a >= 0 {
        assert(div_trunc(a * f, dist) == q);
    } else {
        assert(-(a * f) == n * f) by (nonlinear_arith)
            requires
                n == -a,
        ;
        if a * f < 0 {
            assert(div_trunc(a * f, dist) == -q);
            assert((-q) * (-q) == q * q) by (nonlinear_arith);
        } else {
            assert(a * f == 0);
            assert(n * f == 0);
            assert(div_trunc(a * f, dist) == 0);
            assert(q == 0);
        }
    }
    assert(q * q * (dist * dist) <= (n * n) * (f * f)) by (nonlinear_arith)
        requires
            0 <= q * dist <= n * f,
            dist > 0,
    ;
    assert(n * n == a * a) by (nonlinear_arith)
        requires
            n == a || n == -a,
    ;
}

/// The corrective force never exceeds `max_force` in magnitude.
pub proof fn lemma_corrective_force_bounded(d: (int, int, int), max_force: int, saturation: int)
    requires
        max_force >= 0,
        saturation > 0,
    ensures
        norm_sq(corrective_force(d, max_force, saturation)) <= max_force * max_force,
{
    let s = d.0 * d.0 + d.1 * d.1 + d.2 * d.2;
    assert(d.0 * d.0 + d.1 * d.1 + d.2 * d.2 >= 0) by (nonlinear_arith);
    lemma_ceil_sqrt_exists(s);
    let dist = ceil_sqrt(s);
    let f = force_magnitude(dist, max_force, saturation);
    lemma_force_magnitude_le(dist, max_force, saturation);
    assert(0 <= f * f <= max_force * max_force) by (nonlinear_arith)
        requires
            0 <= f <= max_force,
    ;
    if dist != 0 {
        let v = corrective_force(d, max_force, saturation);
        lemma_scaled_component(d.0, f, dist);
        lemma_scaled_component(d.1, f, dist);
        lemma_scaled_component(d.2, f, dist);
        assert(norm_sq(v) * (dist * dist) <= s * (f * f)) by (nonlinear_arith)
            requires
                v.0 * v.0 * (dist * dist) <= (d.0 * d.0) * (f * f),
                v.1 * v.1 * (dist * dist) <= (d.1 * d.1) * (f * f),
                v.2 * v.2 * (dist * dist) <= (d.2 * d.2) * (f * f),
                norm_sq(v) == v.0 * v.0 + v.1 * v.1 + v.2 * v.2,
                s == d.0 * d.0 + d.1 * d.1 + d.2 * d.2,
        ;
        assert(s * (f * f) <= (dist * dist) * (f * f)) by (nonlinear_arith)
            requires
                s <= dist * dist,
        ;
        assert(norm_sq(v) <= f * f) by (nonlinear_arith)
            requires
                norm_sq(v) * (dist * dist) <= (dist * dist) * (f * f),
                dist > 0,
        ;
        assert(norm_sq(v) <= max_force * max_force);
    } else {
        let v = corrective_force(d, max_force, saturation);
        assert(v.0 * v.0 + v.1 * v.1 + v.2 * v.2 == 0) by (nonlinear_arith)
            requires
                v == (0int, 0int, 0int),
        ;
    }
}

proof fn lemma_ceil_sqrt_exists(s: int)
    requires
        s >= 0,
    ensures
        is_ceil_sqrt(s, ceil_sqrt(s)),
{
    let r = lemma_ceil_sqrt_witness(s, 0);
    assert(is_ceil_sqrt(s, r));
}

proof fn lemma_ceil_sqrt_witness(s: int, r: int) -> (w: int)
    requires
        s >= 0,
        r >= 0,
        r == 0 || (r - 1) * (r - 1) < s,
    ensures
        is_ceil_sqrt(s, w),
    decreases s - r,
{
    if r * r >= s {
        r
    } else {
        assert(r < s) by (nonlinear_arith)
            requires
                r >= 0,
                r * r < s,
        ;
        lemma_ceil_sqrt_witness(s, r + 1)
    }
}

pub open spec fn anchor_range(v: Vec3) -> bool {
    -194 * COORD_MAX <= v.x <= 194 * COORD_MAX && -194 * COORD_MAX <= v.y <= 194 * COORD_MAX && -194
        * COORD_MAX <= v.z <= 194 * COORD_MAX
}

pub open spec fn displacement(target: Vec3, pos: Vec3) -> (int, int, int) {
    (target.x - pos.x, target.y - pos.y, target.z - pos.z)
}

pub open spec fn as_triple(v: Vec3) -> (int, int, int) {
    (v.x as int, v.y as int, v.z as int)
}

/// The force that drives an object at `pos` toward `target`, bounded by
/// `cfg.max_force`.
pub fn bounded_force(target: Vec3, pos: Vec3, cfg: &HoldConfig) -> (r: Vec3)
    requires
        anchor_range(target),
        coord_ok(pos),
        cfg.valid(),
    ensures
        as_triple(r) == corrective_force(
            displacement(target, pos),
            cfg.max_force as int,
            cfg.saturation_distance as int,
        ),
        norm_sq(as_triple(r)) <= cfg.max_force * cfg.max_force,
{
    let dx = target.x as i128 - pos.x as i128;
    let dy = target.y as i128 - pos.y as i128;
    let dz = target.z as i128 - pos.z as i128;
    let ghost b: int = 195 * COORD_MAX;
    proof {
        lemma_mul_le(dx as int, dx as int, b, b);
        lemma_mul_le(dy as int, dy as int, b, b);
        lemma_mul_le(dz as int, dz as int, b, b);
        assert(dx * dx >= 0 && dy * dy >= 0 && dz * dz >= 0) by (nonlinear_arith);
    }
    let sum = dx * dx + dy * dy + dz * dz;
    let dist = ceil_sqrt_exec(sum as u128);
    let max = cfg.max_force as u128;
    let sat = cfg.saturation_distance as u128;
    proof {
        lemma_mul_le(dist as int, max as int, 0x100_0000_0000, FORCE_MAX as int);
    }
    let f: u128 = if dist >= sat {
        max
    } else {
        dist * max / sat
    };
    let ghost d = (dx as int, dy as int, dz as int);
    proof {
        assert(d == displacement(target, pos));
        assert(f as int == force_magnitude(dist as int, max as int, sat as int));
        lemma_force_magnitude_le(dist as int, max as int, sat as int);
        lemma_corrective_force_bounded(d, max as int, sat as int);
    }
    if dist == 0 {
        return Vec3 { x: 0, y: 0, z: 0 };
    }
    let fi = f as i128;
    let di = dist as i128;
    proof {
        lemma_mul_le(dx as int, fi as int, b, FORCE_MAX as int);
        lemma_mul_le(dy as int, fi as int, b, FORCE_MAX as int);
        lemma_mul_le(dz as int, fi as int, b, FORCE_MAX as int);
    }
    let rx = div_trunc_exec(dx * fi, di);
    let ry = div_trunc_exec(dy * fi, di);
    let rz = div_trunc_exec(dz * fi, di);
    proof {
        let v = corrective_force(d, max as int, sat as int);
        assert(v == (rx as int, ry as int, rz as int));
        let m = max as int;
        assert(-m <= rx <= m && -m <= ry <= m && -m <= rz <= m) by (nonlinear_arith)
            requires
                rx * rx + ry * ry + rz * rz <= m * m,
                m >= 0,
        ;
    }
    Vec3 { x: rx as i64, y: ry as i64, z: rz as i64 }
}

/// Every transform of the sample is present and within range.
pub open spec fn usable(s: HoldSample) -> bool {
    &&& s.object_pos matches Some(p) && coord_ok(p)
    &&& s.player_pos matches Some(p) && coord_ok(p)
    &&& s.head_pos matches Some(p) && coord_ok(p)
    &&& s.player_rot matches Some(q) && quat_ok(q)
    &&& s.head_rot matches Some(q) && quat_ok(q)
}

/// `c` is the command for a usable sample: the corrective force toward the
/// anchor that the sample's transforms give, and the configured lift upward.
pub open spec fn command_for(s: HoldSample, cfg: HoldConfig, c: ForceCommand) -> bool {
    let a = anchor(
        s.player_pos.unwrap(),
        s.player_rot.unwrap(),
        s.head_pos.unwrap(),
        s.head_rot.unwrap(),
        cfg.head_permille as int,
        cfg.forward,
    );
    let p = s.object_pos.unwrap();
    &&& c.object == s.object
    &&& as_triple(c.corrective) == corrective_force(
        (a.0 - p.x, a.1 - p.y, a.2 - p.z),
        cfg.max_force as int,
        cfg.saturation_distance as int,
    )
    &&& c.lift == Vec3 { x: 0, y: 0, z: cfg.lift }
}

/// The forces for one held object in this tick, or `None` where a transform
/// is missing (the pair is skipped for this tick).
pub fn hold_force(s: &HoldSample, cfg: &HoldConfig) -> (r: Option<ForceCommand>)
    requires
        cfg.valid(),
    ensures
        r is Some <==> usable(*s),
        r matches Some(c) ==> command_for(*s, *cfg, c),
        r matches Some(c) ==> norm_sq(as_triple(c.corrective)) <= cfg.max_force * cfg.max_force,
{
    let (pos, ppos, prot, hpos, hrot) = match (
        s.object_pos,
        s.player_pos,
        s.player_rot,
        s.head_pos,
        s.head_rot,
    ) {
        (Some(a), Some(b), Some(c), Some(d), Some(e)) => (a, b, c, d, e),
        _ => return None,
    };
    if !(in_range(pos) && in_range(ppos) && in_range(hpos) && unit_range(prot) && unit_range(
        hrot,
    )) {
        return None;
    }
    let target = compute_anchor(ppos, prot, hpos, hrot, cfg);
    let corrective = bounded_force(target, pos, cfg);
    Some(ForceCommand { object: s.object, corrective, lift: Vec3 { x: 0, y: 0, z: cfg.lift } })
}

fn in_range(v: Vec3) -> (r: bool)
    ensures
        r == coord_ok(v),
{
    -COORD_MAX <= v.x && v.x <= COORD_MAX && -COORD_MAX <= v.y && v.y <= COORD_MAX && -COORD_MAX
        <= v.z && v.z <= COORD_MAX
}

fn unit_range(q: Quat) -> (r: bool)
    ensures
        r == quat_ok(q),
{
    -QUAT_ONE <= q.w && q.w <= QUAT_ONE && -QUAT_ONE <= q.x && q.x <= QUAT_ONE && -QUAT_ONE <= q.y
        && q.y <= QUAT_ONE && -QUAT_ONE <= q.z && q.z <= QUAT_ONE
}

/// One pass of the hold-force controller: the command for each held object,
/// in the order of `samples`, and `None` for each pair skipped this tick.
pub fn apply_hold_forces(samples: &Vec<HoldSample>, cfg: &HoldConfig) -> (r: Vec<
    Option<ForceCommand>,
>)
    requires
        cfg.valid(),
    ensures
        r@.len() == samples@.len(),
        forall|i: int|
            0 <= i < r@.len() ==> (#[trigger] r@[i] is Some <==> usable(samples@[i])),
        forall|i: int|
            0 <= i < r@.len() ==> (#[trigger] r@[i] matches Some(c) ==> command_for(
                samples@[i],
                *cfg,
                c,
            ) && norm_sq(as_triple(c.corrective)) <= cfg.max_force * cfg.max_force),
{
    let mut out: Vec<Option<ForceCommand>> = Vec::new();
    let mut i: usize = 0;
    while i < samples.len()
        invariant
            i <= samples@.len(),
            out@.len() == i,
            cfg.valid(),
            forall|j: int| 0 <= j < i ==> (#[trigger] out@[j] is Some <==> usable(samples@[j])),
            forall|j: int|
                0 <= j < i ==> (#[trigger] out@[j] matches Some(c) ==> command_for(
                    samples@[j],
                    *cfg,
                    c,
                ) && norm_sq(as_triple(c.corrective)) <= cfg.max_force * cfg.max_force),
        decreases samples@.len() - i,
    {
        out.push(hold_force(&samples[i], cfg));
        i = i + 1;
    }
    out
}

} // verus!
