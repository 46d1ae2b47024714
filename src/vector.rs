use vstd::prelude::*;

verus! {

/// Fixed-point scale: one world unit (a metre) is `UNIT` millimetres, and a
/// direction vector of unit length has components scaled by `UNIT`.
pub const UNIT: i64 = 1000;

/// Largest magnitude of a velocity component, in millimetres per second.
pub const SPEED_LIMIT: i64 = 1_000_000_000;

/// Largest magnitude of a position component, in millimetres.
pub const POSITION_LIMIT: i64 = 1_000_000_000_000_000;

/// A vector in fixed point: position components in millimetres, velocity
/// components in millimetres per second, directions scaled by `UNIT`.
#[derive(Clone, Copy, Debug, PartialEq, Eq, Structural)]
pub struct Vec3 {
    pub x: i64,
    pub y: i64,
    pub z: i64,
}

pub open spec fn abs(a: int) -> int {
    if a < 0 {
        -a
    } else {
        a
    }
}

/// Division of `a` by a positive `b`, rounding toward zero.
pub open spec fn div_toward_zero(a: int, b: int) -> int
    recommends
        b > 0,
{
    if a >= 0 {
        a / b
    } else {
        -((-a) / b)
    }
}

pub open spec fn within(a: int, limit: int) -> bool {
    -limit <= a <= limit
}

impl Vec3 {
    pub open spec fn bounded(self, limit: int) -> bool {
        within(self.x as int, limit) && within(self.y as int, limit) && within(
            self.z as int,
            limit,
        )
    }

    /// Each component of the velocity stays within `SPEED_LIMIT`.
    pub open spec fn is_speed(self) -> bool {
        self.bounded(SPEED_LIMIT as int)
    }

    /// Each component of the position stays within `POSITION_LIMIT`.
    pub open spec fn is_position(self) -> bool {
        self.bounded(POSITION_LIMIT as int)
    }

    /// Squared length of the horizontal (x, z) part.
    pub open spec fn lateral_sq(self) -> int {
        self.x * self.x + self.z * self.z
    }

    pub fn new(x: i64, y: i64, z: i64) -> (r: Vec3)
        ensures
            r == (Vec3 { x, y, z }),
    {
        Vec3 { x, y, z }
    }

    pub fn zero() -> (r: Vec3)
        ensures
            r == (Vec3 { x: 0, y: 0, z: 0 }),
    {
        Vec3 { x: 0, y: 0, z: 0 }
    }
}

/// The integer square root: the largest `r` with `r * r <= n`.
pub open spec fn sqrt_floor(n: nat) -> nat
    decreases n,
{
    if n == 0 {
        0
    } else {
        let r = sqrt_floor((n - 1) as nat);
        if (r + 1) * (r + 1) <= n {
            r + 1
        } else {
            r
        }
    }
}

/// The smallest `r` with `n <= r * r`.
pub open spec fn sqrt_ceil(n: nat) -> nat {
    let r = sqrt_floor(n);
    if r * r == n {
        r
    } else {
        r + 1
    }
}

pub proof fn lemma_square_monotone(a: int, b: int)
    requires
        0 <= a <= b,
    ensures
        a * a <= b * b,
{
    assert(a * a <= b * b) by (nonlinear_arith)
        requires
            0 <= a <= b,
    ;
}

/// `sqrt_floor(n)` is the integer whose square brackets `n`.
pub proof fn lemma_sqrt_floor_bounds(n: nat)
    ensures
        sqrt_floor(n) * sqrt_floor(n) <= n,
        n < (sqrt_floor(n) + 1) * (sqrt_floor(n) + 1),
    decreases n,
{
    if n > 0 {
        lemma_sqrt_floor_bounds((n - 1) as nat);
        let r = sqrt_floor((n - 1) as nat) as int;
        let s = sqrt_floor(n) as int;
        assert(r * r <= n - 1 && n - 1 < (r + 1) * (r + 1));
        if (r + 1) * (r + 1) <= n {
            assert(s == r + 1);
            assert(n < (r + 2) * (r + 2)) by (nonlinear_arith)
                requires
                    r >= 0,
                    n - 1 < (r + 1) * (r + 1),
            ;
            assert(s * s <= n);
            assert(n < (s + 1) * (s + 1));
        } else {
            assert(s == r);
            assert(n < (s + 1) * (s + 1));
        }
        assert(sqrt_floor(n) * sqrt_floor(n) == s * s);
        assert((sqrt_floor(n) + 1) * (sqrt_floor(n) + 1) == (s + 1) * (s + 1));
    } else {
        let z = sqrt_floor(n) as int;
        assert(z == 0);
        assert((z + 1) * (z + 1) == 1) by (nonlinear_arith)
            requires
                z == 0,
        ;
    }
}

/// Any `r` that brackets `n` as above is `sqrt_floor(n)`.
pub proof fn lemma_sqrt_floor_unique(n: nat, r: nat)
    requires
        r * r <= n,
        n < (r + 1) * (r + 1),
    ensures
        r == sqrt_floor(n),
{
    lemma_sqrt_floor_bounds(n);
    let s = sqrt_floor(n);
    if r < s {
        lemma_square_monotone(r + 1 as int, s as int);
    } else if s < r {
        lemma_square_monotone(s + 1 as int, r as int);
    }
}

pub proof fn lemma_sqrt_ceil_bounds(n: nat)
    ensures
        n <= sqrt_ceil(n) * sqrt_ceil(n),
        sqrt_ceil(n) == 0 || (sqrt_ceil(n) - 1) * (sqrt_ceil(n) - 1) < n,
        sqrt_floor(n) <= sqrt_ceil(n) <= sqrt_floor(n) + 1,
        n > 0 ==> sqrt_ceil(n) > 0,
{
    lemma_sqrt_floor_bounds(n);
    let r = sqrt_floor(n) as int;
    if r > 0 {
        assert((r - 1) * (r - 1) < r * r) by (nonlinear_arith)
            requires
                r > 0,
        ;
    }
}

/// Largest argument accepted by `isqrt`.
pub const SQRT_ARG_LIMIT: u64 = 4_000_000_000_000_000_000;

/// Integer square root by bisection.
pub fn isqrt(n: u64) -> (r: u64)
    requires
        n <= SQRT_ARG_LIMIT,
    ensures
        r == sqrt_floor(n as nat),
        r <= 2_000_000_000,
{
    let mut lo: u64 = 0;
    let mut hi: u64 = 2_000_000_001;
    assert(hi * hi > SQRT_ARG_LIMIT);
    while hi - lo > 1
        invariant
            lo < hi <= 2_000_000_001,
            lo * lo <= n,
            n < hi * hi,
        decreases hi - lo,
    {
        let mid: u64 = lo + (hi - lo) / 2;
        assert(mid * mid <= hi * hi) by {
            lemma_square_monotone(mid as int, hi as int);
        }
        assert(hi * hi <= 2_000_000_001 * 2_000_000_001) by {
            lemma_square_monotone(hi as int, 2_000_000_001);
        }
        if mid * mid <= n {
            lo = mid;
        } else {
            hi = mid;
        }
    }
    proof {
        lemma_sqrt_floor_unique(n as nat, lo as nat);
        if lo > 2_000_000_000 {
            lemma_square_monotone(2_000_000_001, lo as int);
            assert(2_000_000_001 * 2_000_000_001 > SQRT_ARG_LIMIT);
        }
    }
    lo
}

/// Smallest `r` with `n <= r * r`.
pub fn isqrt_ceil(n: u64) -> (r: u64)
    requires
        n <= SQRT_ARG_LIMIT,
    ensures
        r == sqrt_ceil(n as nat),
        r <= 2_000_000_001,
{
    let r = isqrt(n);
    proof {
        lemma_square_monotone(r as int, 2_000_000_000);
    }
    if r * r == n {
        r
    } else {
        r + 1
    }
}

/// Squared length of the horizontal part of a bounded velocity.
pub fn lateral_sq(v: &Vec3) -> (r: u64)
    requires
        v.is_speed(),
    ensures
        r as int == v.lateral_sq(),
        r <= 2_000_000_000_000_000_000,
{
    proof {
        lemma_square_bound(v.x as int, SPEED_LIMIT as int);
        lemma_square_bound(v.z as int, SPEED_LIMIT as int);
    }
    let sx = (v.x as i128 * v.x as i128) as u64;
    let sz = (v.z as i128 * v.z as i128) as u64;
    sx + sz
}

/// Horizontal speed of a bounded velocity, rounded down.
pub fn lateral_speed(v: &Vec3) -> (r: i64)
    requires
        v.is_speed(),
    ensures
        r as int == sqrt_floor(v.lateral_sq() as nat),
        0 <= r <= 2_000_000_000,
{
    let n = lateral_sq(v);
    isqrt(n) as i64
}

pub proof fn lemma_square_bound(a: int, limit: int)
    requires
        within(a, limit),
    ensures
        0 <= a * a <= limit * limit,
{
    assert(0 <= a * a <= limit * limit) by (nonlinear_arith)
        requires
            -limit <= a <= limit,
    ;
}

/// `a * b` divided by a positive `c`, rounded toward zero.
pub fn mul_div(a: i64, b: i64, c: i64) -> (r: i64)
    requires
        c > 0,
        within(a as int, 4_000_000_000_000_000_000),
        within(b as int, 4_000_000_000_000_000_000),
        within(div_toward_zero(a * b, c as int), i64::MAX as int),
    ensures
        r as int == div_toward_zero(a * b, c as int),
{
    assert(within(a * b, 16_000_000_000_000_000_000_000_000_000_000_000_000)) by (nonlinear_arith)
        requires
            within(a as int, 4_000_000_000_000_000_000),
            within(b as int, 4_000_000_000_000_000_000),
    ;
    let p = a as i128 * b as i128;
    if p >= 0 {
        (p / c as i128) as i64
    } else {
        (-((-p) / c as i128)) as i64
    }
}

/// `v` held within `[-limit, limit]`.
pub open spec fn clamp(v: int, limit: int) -> int {
    if v > limit {
        limit
    } else if v < -limit {
        -limit
    } else {
        v
    }
}

pub fn clamp_speed(v: i64) -> (r: i64)
    ensures
        r as int == clamp(v as int, SPEED_LIMIT as int),
{
    if v > SPEED_LIMIT {
        SPEED_LIMIT
    } else if v < -SPEED_LIMIT {
        -SPEED_LIMIT
    } else {
        v
    }
}

/// Magnitude bound of a quotient rounded toward zero.
pub proof fn lemma_div_toward_zero_shrinks(a: int, b: int)
    requires
        b >= 1,
    ensures
        abs(div_toward_zero(a, b)) <= abs(a),
        a >= 0 ==> div_toward_zero(a, b) >= 0,
        a <= 0 ==> div_toward_zero(a, b) <= 0,
{
    if a >= 0 {
        assert(a / b <= a) by (nonlinear_arith)
            requires
                a >= 0,
                b >= 1,
        ;
        assert(a / b >= 0) by (nonlinear_arith)
            requires
                a >= 0,
                b >= 1,
        ;
    } else {
        let m = -a;
        assert(m / b <= m) by (nonlinear_arith)
            requires
                m >= 0,
                b >= 1,
        ;
        assert(m / b >= 0) by (nonlinear_arith)
            requires
                m >= 0,
                b >= 1,
        ;
    }
}

} // verus!
