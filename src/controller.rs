use vstd::prelude::*;

use crate::input::{FpsControllerInput, FpsControllerInputQueue};
use crate::vector::{
    UNIT, SPEED_LIMIT, Vec3, abs, clamp, clamp_speed, div_toward_zero, isqrt, isqrt_ceil,
    lateral_speed, lemma_div_toward_zero_shrinks, lemma_sqrt_ceil_bounds,
    lemma_sqrt_floor_bounds, lemma_square_bound, lemma_square_monotone, mul_div, sqrt_ceil,
    sqrt_floor, within,
};

verus! {

/// Largest tunable speed of a controller, in millimetres per second.
pub const MAX_TUNED_SPEED: i64 = 1_000_000;

/// Largest tunable rate (acceleration, friction) of a controller, per second.
pub const MAX_TUNED_RATE: i64 = 1000;

/// Longest simulation step, in milliseconds.
pub const MAX_STEP_MS: i64 = 1000;

#[derive(Clone, Copy, Debug, PartialEq, Eq, Structural)]
pub enum MoveMode {
    Noclip,
    Ground,
}

/// Movement state and tuning of one player.
///
/// Speeds are in millimetres per second, `gravity` in millimetres per second
/// squared, `accel`, `air_acceleration` and `friction` per second, and
/// `fly_friction` in thousandths of the velocity lost per step.
/// `last_applied_serial` is `None` until the first input is applied.
#[derive(Clone, Copy, Debug, PartialEq, Eq, Structural)]
pub struct FpsController {
    pub last_applied_serial: Option<u32>,
    pub move_mode: MoveMode,
    pub gravity: i64,
    pub walk_speed: i64,
    pub run_speed: i64,
    pub forward_speed: i64,
    pub side_speed: i64,
    pub air_speed_cap: i64,
    pub air_acceleration: i64,
    pub max_air_speed: i64,
    pub accel: i64,
    pub friction: i64,
    pub friction_cutoff: i64,
    pub jump_speed: i64,
    pub fly_speed: i64,
    pub fast_fly_speed: i64,
    pub fly_friction: i64,
    pub velocity: Vec3,
    pub ground_tick: u8,
    pub stop_speed: i64,
    pub apply_single: bool,
}

pub open spec fn tuned_speed(a: i64) -> bool {
    0 <= a <= MAX_TUNED_SPEED
}

pub open spec fn tuned_rate(a: i64) -> bool {
    0 <= a <= MAX_TUNED_RATE
}

pub open spec fn min(a: int, b: int) -> int {
    if a < b {
        a
    } else {
        b
    }
}

pub open spec fn max(a: int, b: int) -> int {
    if a > b {
        a
    } else {
        b
    }
}

/// Length of a step, in milliseconds, that the integrator accepts.
pub open spec fn valid_step(dt: i64) -> bool {
    0 <= dt <= MAX_STEP_MS
}

/// Velocity projected on a direction scaled by `UNIT`.
pub open spec fn projection(vx: int, vz: int, dx: int, dz: int) -> int {
    div_toward_zero(vx * dx + vz * dz, UNIT as int)
}

/// Horizontal velocity after accelerating toward direction `(dx, dz)` for
/// `dt` milliseconds: the speed along the direction grows by at most
/// `accel * wish * dt`, and never past `wish`.
pub open spec fn accelerated(
    vx: int,
    vz: int,
    dx: int,
    dz: int,
    wish: int,
    accel: int,
    dt: int,
) -> (int, int) {
    let add = wish - projection(vx, vz, dx, dz);
    if add <= 0 {
        (vx, vz)
    } else {
        let a = min(div_toward_zero(accel * wish * dt, 1000), add);
        (vx + div_toward_zero(dx * a, UNIT as int), vz + div_toward_zero(dz * a, UNIT as int))
    }
}

/// Horizontal velocity after ground friction for `dt` milliseconds, with
/// `lateral` the current horizontal speed: the speed drops by
/// `max(lateral, stop) * friction * dt`, and stops at zero.
pub open spec fn slowed(
    vx: int,
    vz: int,
    lateral: int,
    friction: int,
    stop: int,
    dt: int,
) -> (int, int) {
    let drop = div_toward_zero(max(lateral, stop) * friction * dt, 1000);
    let keep = max(lateral - drop, 0);
    (div_toward_zero(vx * keep, lateral), div_toward_zero(vz * keep, lateral))
}

/// Desired horizontal velocity of an input: forward intent along the heading
/// at `forward_speed`, side intent along its right at `side_speed`.
pub open spec fn wish_vector(input: FpsControllerInput, forward_speed: int, side_speed: int) -> (
    int,
    int,
) {
    (
        div_toward_zero(
            input.move_z * forward_speed * input.heading_x - input.move_x * side_speed
                * input.heading_z,
            UNIT as int,
        ),
        div_toward_zero(
            input.move_z * forward_speed * input.heading_z + input.move_x * side_speed
                * input.heading_x,
            UNIT as int,
        ),
    )
}

/// `(wx, wz)` scaled to length `UNIT` at most (its length rounded up divides
/// it); zero stays zero.
pub open spec fn unit_direction(wx: int, wz: int) -> (int, int) {
    let n = wx * wx + wz * wz;
    if n == 0 {
        (0, 0)
    } else {
        let c = sqrt_ceil(n as nat) as int;
        (div_toward_zero(wx * UNIT, c), div_toward_zero(wz * UNIT, c))
    }
}

/// Horizontal speed, rounded down.
pub open spec fn length2(x: int, z: int) -> int {
    sqrt_floor((x * x + z * z) as nat) as int
}

pub open spec fn half(a: int) -> int {
    div_toward_zero(a, 2)
}

pub open spec fn fall(c: FpsController, dt: int) -> int {
    div_toward_zero(c.gravity * dt, 1000)
}

impl FpsController {
    pub open spec fn wf(self) -> bool {
        &&& 0 <= self.gravity <= MAX_TUNED_SPEED
        &&& tuned_speed(self.walk_speed)
        &&& tuned_speed(self.run_speed)
        &&& tuned_speed(self.forward_speed)
        &&& tuned_speed(self.side_speed)
        &&& tuned_speed(self.air_speed_cap)
        &&& tuned_speed(self.max_air_speed)
        &&& tuned_speed(self.friction_cutoff)
        &&& tuned_speed(self.jump_speed)
        &&& tuned_speed(self.fly_speed)
        &&& tuned_speed(self.fast_fly_speed)
        &&& tuned_speed(self.stop_speed)
        &&& tuned_rate(self.air_acceleration)
        &&& tuned_rate(self.accel)
        &&& tuned_rate(self.friction)
        &&& within(self.fly_friction as int, MAX_TUNED_SPEED as int)
        &&& self.velocity.is_speed()
    }

    /// The wish direction and wish speed of `input` on the ground, before the
    /// airborne cap.
    pub open spec fn wish(self, input: FpsControllerInput) -> (int, int, int) {
        let w = wish_vector(input, self.forward_speed as int, self.side_speed as int);
        let d = unit_direction(w.0, w.1);
        let max_speed = if input.sprint {
            self.run_speed
        } else {
            self.walk_speed
        };
        (d.0, d.1, min(length2(w.0, w.1), max_speed as int))
    }

    /// One step in ground mode: the new controller and the velocity to hand
    /// to the physics body (the mean of the velocities before and after).
    pub open spec fn ground_step(
        self,
        input: FpsControllerInput,
        grounded: bool,
        dt: int,
    ) -> (FpsController, Vec3) {
        let v = self.velocity;
        let lateral = length2(v.x as int, v.z as int);
        let w = self.wish(input);
        if grounded {
            let f: (int, int, int) = if self.ground_tick >= 1 {
                if lateral > self.friction_cutoff {
                    let s = slowed(
                        v.x as int,
                        v.z as int,
                        lateral,
                        self.friction as int,
                        self.stop_speed as int,
                        dt,
                    );
                    (s.0, 0, s.1)
                } else {
                    (0, 0, 0)
                }
            } else {
                (v.x as int, v.y as int, v.z as int)
            };
            let a = accelerated(f.0, f.2, w.0, w.1, w.2, self.accel as int, dt);
            let ex = clamp(a.0, SPEED_LIMIT as int);
            let ez = clamp(a.1, SPEED_LIMIT as int);
            let sy = if input.jump {
                self.jump_speed as int
            } else {
                v.y as int
            };
            let ey = if input.jump {
                self.jump_speed - fall(self, dt)
            } else {
                f.1
            };
            let tick: u8 = if self.ground_tick < 255 {
                (self.ground_tick + 1) as u8
            } else {
                255
            };
            (
                FpsController {
                    velocity: Vec3 { x: ex as i64, y: ey as i64, z: ez as i64 },
                    ground_tick: tick,
                    ..self
                },
                Vec3 {
                    x: half(v.x + ex) as i64,
                    y: half(sy + ey) as i64,
                    z: half(v.z + ez) as i64,
                },
            )
        } else {
            let a = accelerated(
                v.x as int,
                v.z as int,
                w.0,
                w.1,
                min(w.2, self.air_speed_cap as int),
                self.air_acceleration as int,
                dt,
            );
            let cx = clamp(a.0, SPEED_LIMIT as int);
            let cz = clamp(a.1, SPEED_LIMIT as int);
            let ey = clamp(v.y - fall(self, dt), SPEED_LIMIT as int);
            let air = length2(cx, cz);
            let ex = if air > self.max_air_speed {
                div_toward_zero(cx * self.max_air_speed, air)
            } else {
                cx
            };
            let ez = if air > self.max_air_speed {
                div_toward_zero(cz * self.max_air_speed, air)
            } else {
                cz
            };
            (
                FpsController {
                    velocity: Vec3 { x: ex as i64, y: ey as i64, z: ez as i64 },
                    ground_tick: 0,
                    ..self
                },
                Vec3 {
                    x: half(v.x + ex) as i64,
                    y: half(v.y + ey) as i64,
                    z: half(v.z + ez) as i64,
                },
            )
        }
    }
}

impl FpsController {
    /// One step in free-fly mode. Without intent the velocity decays by
    /// `fly_friction` thousandths (held in `[0, 1000]`); with intent it is the
    /// intent scaled to the fly speed, in the frame of the heading. The
    /// second result is that velocity turned into the world frame.
    pub open spec fn fly_step(self, input: FpsControllerInput) -> (FpsController, Vec3) {
        let v = self.velocity;
        let nv = if input.move_x == 0 && input.move_y == 0 && input.move_z == 0 {
            let f = if self.fly_friction < 0 {
                0
            } else if self.fly_friction > 1000 {
                1000
            } else {
                self.fly_friction as int
            };
            Vec3 {
                x: div_toward_zero(v.x * (1000 - f), 1000) as i64,
                y: div_toward_zero(v.y * (1000 - f), 1000) as i64,
                z: div_toward_zero(v.z * (1000 - f), 1000) as i64,
            }
        } else {
            let speed = if input.sprint {
                self.fast_fly_speed
            } else {
                self.fly_speed
            };
            let k = input.move_x * input.move_x + input.move_y * input.move_y + input.move_z
                * input.move_z;
            let c = sqrt_ceil((k * UNIT * UNIT) as nat) as int;
            Vec3 {
                x: div_toward_zero(input.move_x * speed * UNIT, c) as i64,
                y: div_toward_zero(input.move_y * speed * UNIT, c) as i64,
                z: div_toward_zero(input.move_z * speed * UNIT, c) as i64,
            }
        };
        (
            FpsController { velocity: nv, ..self },
            Vec3 {
                x: div_toward_zero(nv.x * (-input.heading_z) + nv.z * input.heading_x, UNIT as int)
                    as i64,
                y: nv.y,
                z: div_toward_zero(nv.x * input.heading_x + nv.z * input.heading_z, UNIT as int)
                    as i64,
            },
        )
    }

    /// Applies one input: a set fly flag toggles the mode, the mode's step
    /// runs, and the input's serial becomes the last applied one.
    pub open spec fn applied(self, input: FpsControllerInput, grounded: bool, dt: int) -> (
        FpsController,
        Vec3,
    ) {
        let mode = if input.fly {
            match self.move_mode {
                MoveMode::Noclip => MoveMode::Ground,
                MoveMode::Ground => MoveMode::Noclip,
            }
        } else {
            self.move_mode
        };
        let c = FpsController { move_mode: mode, ..self };
        let r = match mode {
            MoveMode::Noclip => c.fly_step(input),
            MoveMode::Ground => c.ground_step(input, grounded, dt),
        };
        (FpsController { last_applied_serial: Some(input.serial), ..r.0 }, r.1)
    }
}

/// Whether `input` is stale for `c`: its serial does not exceed the last
/// applied one (a duplicate, or one overtaken in transit). Before any input
/// is applied nothing is stale.
pub open spec fn stale(c: FpsController, input: FpsControllerInput) -> bool {
    match c.last_applied_serial {
        None => false,
        Some(last) => input.serial <= last,
    }
}

/// `later` is no earlier a last applied serial than `earlier`: once some
/// input is applied there is always one, and its serial never drops.
pub open spec fn not_before(later: Option<u32>, earlier: Option<u32>) -> bool {
    match earlier {
        None => true,
        Some(e) => match later {
            None => false,
            Some(l) => e <= l,
        },
    }
}

/// Consumes the queued inputs in order. A stale input is dropped with no
/// effect; any other is applied, and when `apply_single` is set the move
/// stops after that one. Gives the final controller, the velocity for the
/// physics body from the last input applied (if any), and how many inputs
/// were taken from the queue.
pub open spec fn run_inputs(
    c: FpsController,
    inputs: Seq<FpsControllerInput>,
    grounded: bool,
    dt: int,
) -> (FpsController, Option<Vec3>, nat)
    decreases inputs.len(),
{
    if inputs.len() == 0 {
        (c, None, 0)
    } else if stale(c, inputs[0]) {
        let rest = run_inputs(c, inputs.drop_first(), grounded, dt);
        (rest.0, rest.1, rest.2 + 1)
    } else {
        let r = c.applied(inputs[0], grounded, dt);
        if c.apply_single {
            (r.0, Some(r.1), 1)
        } else {
            let rest = run_inputs(r.0, inputs.drop_first(), grounded, dt);
            (rest.0, if rest.1.is_none() { Some(r.1) } else { rest.1 }, rest.2 + 1)
        }
    }
}

/// `run_inputs`, continuing from a step that already produced `last`.
pub open spec fn run_from(
    c: FpsController,
    inputs: Seq<FpsControllerInput>,
    grounded: bool,
    dt: int,
    last: Option<Vec3>,
) -> (FpsController, Option<Vec3>) {
    let r = run_inputs(c, inputs, grounded, dt);
    (r.0, if r.1.is_none() { last } else { r.1 })
}

/// Consuming input never lowers the last applied serial, never changes
/// `apply_single`, and takes no more inputs than are queued.
pub proof fn lemma_run_inputs_monotone(
    c: FpsController,
    inputs: Seq<FpsControllerInput>,
    grounded: bool,
    dt: int,
)
    ensures
        not_before(run_inputs(c, inputs, grounded, dt).0.last_applied_serial, c.last_applied_serial),
        run_inputs(c, inputs, grounded, dt).0.apply_single == c.apply_single,
        run_inputs(c, inputs, grounded, dt).2 <= inputs.len(),
    decreases inputs.len(),
{
    if inputs.len() > 0 {
        if stale(c, inputs[0]) {
            lemma_run_inputs_monotone(c, inputs.drop_first(), grounded, dt);
        } else {
            let r = c.applied(inputs[0], grounded, dt);
            if !c.apply_single {
                lemma_run_inputs_monotone(r.0, inputs.drop_first(), grounded, dt);
            }
        }
    }
}

/// `|div_toward_zero(v * keep, den)| <= |v|` for `0 <= keep <= den`, with the
/// sign of `v` kept.
pub proof fn lemma_scale_down(v: int, keep: int, den: int)
    requires
        0 <= keep <= den,
        den > 0,
    ensures
        abs(div_toward_zero(v * keep, den)) <= abs(v),
        v >= 0 ==> div_toward_zero(v * keep, den) >= 0,
        v <= 0 ==> div_toward_zero(v * keep, den) <= 0,
{
    let m = abs(v);
    assert(m * keep <= m * den) by (nonlinear_arith)
        requires
            m >= 0,
            0 <= keep <= den,
    ;
    assert((m * keep) / den <= m) by (nonlinear_arith)
        requires
            m >= 0,
            0 <= m * keep <= m * den,
            den > 0,
    ;
    assert(m * keep >= 0) by (nonlinear_arith)
        requires
            m >= 0,
            keep >= 0,
    ;
    if v >= 0 {
        assert(v * keep == m * keep);
    } else {
        assert(-(v * keep) == m * keep) by (nonlinear_arith)
            requires
                m == -v,
        ;
    }
    lemma_div_toward_zero_shrinks(v * keep, den);
}

/// Rounding toward zero is monotone.
pub proof fn lemma_div_toward_zero_monotone(a: int, b: int, d: int)
    requires
        a <= b,
        d > 0,
    ensures
        div_toward_zero(a, d) <= div_toward_zero(b, d),
{
    if a >= 0 {
        vstd::arithmetic::div_mod::lemma_div_is_ordered(a, b, d);
    } else if b >= 0 {
        lemma_div_toward_zero_shrinks(a, d);
        lemma_div_toward_zero_shrinks(b, d);
    } else {
        vstd::arithmetic::div_mod::lemma_div_is_ordered(-b, -a, d);
    }
}

/// A value lies below the next multiple of `d` after its rounded quotient.
pub proof fn lemma_below_next_multiple(a: int, d: int)
    requires
        d > 0,
    ensures
        a < (div_toward_zero(a, d) + 1) * d,
{
    if a >= 0 {
        vstd::arithmetic::div_mod::lemma_fundamental_div_mod(a, d);
        assert(a < (a / d + 1) * d) by (nonlinear_arith)
            requires
                a == d * (a / d) + a % d,
                0 <= a % d < d,
        ;
    } else {
        let m = -a;
        vstd::arithmetic::div_mod::lemma_fundamental_div_mod(m, d);
        assert(a <= (-(m / d)) * d) by (nonlinear_arith)
            requires
                m == d * (m / d) + m % d,
                0 <= m % d < d,
                a == -m,
        ;
        assert((-(m / d)) * d < (-(m / d) + 1) * d) by (nonlinear_arith)
            requires
                d > 0,
        ;
    }
}

/// Adding `div_toward_zero(c * a, d)` along a component `c` with `a >= 0`
/// raises `c * x` by at least zero and at most `c * c * a / d`.
pub proof fn lemma_component_gain(c: int, a: int, d: int)
    requires
        a >= 0,
        d > 0,
    ensures
        0 <= c * div_toward_zero(c * a, d),
        d * (c * div_toward_zero(c * a, d)) <= c * c * a,
{
    if c >= 0 {
        let m = c * a;
        assert(m >= 0) by (nonlinear_arith)
            requires
                m == c * a,
                c >= 0,
                a >= 0,
        ;
        vstd::arithmetic::div_mod::lemma_fundamental_div_mod(m, d);
        let q = m / d;
        assert(q >= 0 && d * q <= m) by (nonlinear_arith)
            requires
                m == d * (m / d) + m % d,
                0 <= m % d < d,
                m >= 0,
                q == m / d,
        ;
        assert(0 <= c * q && d * (c * q) <= c * m) by (nonlinear_arith)
            requires
                c >= 0,
                q >= 0,
                d * q <= m,
        ;
        assert(c * m == c * c * a) by (nonlinear_arith)
            requires
                m == c * a,
        ;
    } else {
        let m = -(c * a);
        assert(m >= 0 && m == (-c) * a) by (nonlinear_arith)
            requires
                c < 0,
                a >= 0,
                m == -(c * a),
        ;
        vstd::arithmetic::div_mod::lemma_fundamental_div_mod(m, d);
        let q = m / d;
        assert(q >= 0 && d * q <= m) by (nonlinear_arith)
            requires
                m == d * (m / d) + m % d,
                0 <= m % d < d,
                m >= 0,
                q == m / d,
        ;
        assert(div_toward_zero(c * a, d) == -q);
        assert(0 <= c * (-q) && d * (c * (-q)) <= (-c) * m) by (nonlinear_arith)
            requires
                c < 0,
                q >= 0,
                d * q <= m,
        ;
        assert((-c) * m == c * c * a) by (nonlinear_arith)
            requires
                m == (-c) * a,
        ;
    }
}

/// One acceleration step toward a direction no longer than `UNIT` never
/// lowers the speed along it, and never raises it past `wish` when it was not
/// already past.
pub proof fn lemma_accelerate_step(
    vx: int,
    vz: int,
    dx: int,
    dz: int,
    wish: int,
    accel: int,
    dt: int,
)
    requires
        dx * dx + dz * dz <= UNIT * UNIT,
        wish >= 0,
        accel >= 0,
        dt >= 0,
    ensures
        ({
            let r = accelerated(vx, vz, dx, dz, wish, accel, dt);
            &&& projection(vx, vz, dx, dz) <= projection(r.0, r.1, dx, dz)
            &&& projection(vx, vz, dx, dz) <= wish ==> projection(r.0, r.1, dx, dz) <= wish
            &&& projection(vx, vz, dx, dz) > wish ==> r == (vx, vz)
        }),
{
    let s = UNIT as int;
    let p = projection(vx, vz, dx, dz);
    let add = wish - p;
    if add > 0 {
        let q = div_toward_zero(accel * wish * dt, 1000);
        assert(accel * wish * dt >= 0) by (nonlinear_arith)
            requires
                accel >= 0,
                wish >= 0,
                dt >= 0,
        ;
        lemma_div_toward_zero_shrinks(accel * wish * dt, 1000);
        let a = min(q, add);
        assert(0 <= a <= add);
        let gx = div_toward_zero(dx * a, s);
        let gz = div_toward_zero(dz * a, s);
        lemma_component_gain(dx, a, s);
        lemma_component_gain(dz, a, s);
        let dot = vx * dx + vz * dz;
        let dot2 = (vx + gx) * dx + (vz + gz) * dz;
        assert(dot2 == dot + dx * gx + dz * gz) by (nonlinear_arith)
            requires
                dot2 == (vx + gx) * dx + (vz + gz) * dz,
                dot == vx * dx + vz * dz,
        ;
        assert(s * dot2 <= s * dot + a * (dx * dx + dz * dz)) by (nonlinear_arith)
            requires
                dot2 == dot + dx * gx + dz * gz,
                s * (dx * gx) <= dx * dx * a,
                s * (dz * gz) <= dz * dz * a,
        ;
        assert(a * (dx * dx + dz * dz) <= a * (s * s)) by (nonlinear_arith)
            requires
                a >= 0,
                dx * dx + dz * dz <= s * s,
        ;
        assert(dot2 <= dot + a * s) by (nonlinear_arith)
            requires
                s * dot2 <= s * dot + a * (s * s),
                s > 0,
        ;
        lemma_below_next_multiple(dot, s);
        assert(dot2 < (wish + 1) * s) by (nonlinear_arith)
            requires
                dot2 <= dot + a * s,
                dot < (p + 1) * s,
                a <= wish - p,
                s > 0,
        ;
        if dot2 >= 0 {
            assert(dot2 / s <= wish) by (nonlinear_arith)
                requires
                    0 <= dot2 < (wish + 1) * s,
                    s > 0,
            ;
        } else {
            lemma_div_toward_zero_shrinks(dot2, s);
        }
        lemma_div_toward_zero_monotone(dot, dot2, s);
    }
}

/// `n` acceleration steps toward one direction.
pub open spec fn accelerated_n(
    n: nat,
    vx: int,
    vz: int,
    dx: int,
    dz: int,
    wish: int,
    accel: int,
    dt: int,
) -> (int, int)
    decreases n,
{
    if n == 0 {
        (vx, vz)
    } else {
        let r = accelerated(vx, vz, dx, dz, wish, accel, dt);
        accelerated_n((n - 1) as nat, r.0, r.1, dx, dz, wish, accel, dt)
    }
}

/// Repeated acceleration with a constant wish direction and wish speed
/// raises the speed along the direction step by step and never carries it
/// past the wish speed.
pub proof fn lemma_acceleration_saturates(
    n: nat,
    vx: int,
    vz: int,
    dx: int,
    dz: int,
    wish: int,
    accel: int,
    dt: int,
)
    requires
        dx * dx + dz * dz <= UNIT * UNIT,
        wish >= 0,
        accel >= 0,
        dt >= 0,
        projection(vx, vz, dx, dz) <= wish,
    ensures
        ({
            let r = accelerated_n(n, vx, vz, dx, dz, wish, accel, dt);
            projection(vx, vz, dx, dz) <= projection(r.0, r.1, dx, dz) <= wish
        }),
    decreases n,
{
    if n > 0 {
        lemma_accelerate_step(vx, vz, dx, dz, wish, accel, dt);
        let r = accelerated(vx, vz, dx, dz, wish, accel, dt);
        lemma_acceleration_saturates((n - 1) as nat, r.0, r.1, dx, dz, wish, accel, dt);
    }
}

/// Along an axis, a step whose acceleration budget covers the missing speed
/// reaches the wish speed exactly.
pub proof fn lemma_acceleration_reaches_wish(vx: int, vz: int, wish: int, accel: int, dt: int)
    requires
        vx < wish,
        div_toward_zero(accel * wish * dt, 1000) >= wish - vx,
    ensures
        accelerated(vx, vz, UNIT as int, 0, wish, accel, dt) == (wish, vz),
{
    assert(vx * 1000 + vz * 0 == vx * 1000);
    assert(projection(vx, vz, 1000, 0) == vx);
    let a = wish - vx;
    assert(div_toward_zero(1000 * a, 1000) == a);
    assert(div_toward_zero(0 * a, 1000) == 0);
}

/// Ground friction on a moving body never reverses its horizontal velocity:
/// each component keeps its sign and does not grow, so the horizontal speed
/// stays between zero and what it was.
pub proof fn lemma_friction_never_reverses(
    vx: int,
    vz: int,
    friction: int,
    stop: int,
    dt: int,
)
    requires
        length2(vx, vz) > 0,
        friction >= 0,
        stop >= 0,
        dt >= 0,
        friction * dt < 1000,
    ensures
        ({
            let r = slowed(vx, vz, length2(vx, vz), friction, stop, dt);
            &&& abs(r.0) <= abs(vx)
            &&& abs(r.1) <= abs(vz)
            &&& vx >= 0 ==> r.0 >= 0
            &&& vx <= 0 ==> r.0 <= 0
            &&& vz >= 0 ==> r.1 >= 0
            &&& vz <= 0 ==> r.1 <= 0
            &&& 0 <= r.0 * r.0 + r.1 * r.1 <= vx * vx + vz * vz
        }),
{
    let lateral = length2(vx, vz);
    let m = max(lateral, stop);
    assert(m * friction * dt >= 0) by (nonlinear_arith)
        requires
            m >= 0,
            friction >= 0,
            dt >= 0,
    ;
    lemma_div_toward_zero_shrinks(m * friction * dt, 1000);
    let drop = div_toward_zero(m * friction * dt, 1000);
    let keep = max(lateral - drop, 0);
    assert(0 <= keep <= lateral);
    lemma_scale_down(vx, keep, lateral);
    lemma_scale_down(vz, keep, lateral);
    let r = slowed(vx, vz, lateral, friction, stop, dt);
    lemma_square_monotone(abs(r.0), abs(vx));
    lemma_square_monotone(abs(r.1), abs(vz));
    assert(abs(r.0) * abs(r.0) == r.0 * r.0) by (nonlinear_arith);
    assert(abs(r.1) * abs(r.1) == r.1 * r.1) by (nonlinear_arith);
    assert(abs(vx) * abs(vx) == vx * vx) by (nonlinear_arith);
    assert(abs(vz) * abs(vz) == vz * vz) by (nonlinear_arith);
}

/// Ground friction over `dt` milliseconds on the horizontal part of
/// `velocity`, whose horizontal speed is `lateral`. When `lateral` is that
/// speed and `friction * dt` stays under a second, the velocity is never
/// reversed: each horizontal component keeps its sign and does not grow.
pub fn friction(lateral: i64, friction: i64, stop_speed: i64, dt: i64, velocity: &mut Vec3)
    requires
        old(velocity).is_speed(),
        0 < lateral <= 2_000_000_000,
        tuned_rate(friction),
        tuned_speed(stop_speed),
        valid_step(dt),
    ensures
        ({
            let s = slowed(
                old(velocity).x as int,
                old(velocity).z as int,
                lateral as int,
                friction as int,
                stop_speed as int,
                dt as int,
            );
            final(velocity).x == s.0 && final(velocity).z == s.1
        }),
        final(velocity).y == old(velocity).y,
        final(velocity).is_speed(),
        lateral == length2(old(velocity).x as int, old(velocity).z as int) && friction * dt
            < 1000 ==> {
            &&& abs(final(velocity).x as int) <= abs(old(velocity).x as int)
            &&& abs(final(velocity).z as int) <= abs(old(velocity).z as int)
            &&& old(velocity).x >= 0 ==> final(velocity).x >= 0
            &&& old(velocity).x <= 0 ==> final(velocity).x <= 0
            &&& old(velocity).z >= 0 ==> final(velocity).z >= 0
            &&& old(velocity).z <= 0 ==> final(velocity).z <= 0
            &&& 0 <= final(velocity).lateral_sq() <= old(velocity).lateral_sq()
        },
{
    proof {
        if lateral == length2(velocity.x as int, velocity.z as int) && friction * dt < 1000 {
            lemma_friction_never_reverses(
                velocity.x as int,
                velocity.z as int,
                friction as int,
                stop_speed as int,
                dt as int,
            );
        }
    }
    let control = if lateral > stop_speed {
        lateral
    } else {
        stop_speed
    };
    assert(0 <= control * friction <= 2_000_000_000_000) by (nonlinear_arith)
        requires
            0 <= control <= 2_000_000_000,
            0 <= friction <= 1000,
    ;
    assert(0 <= control * friction * dt <= 2_000_000_000_000_000) by (nonlinear_arith)
        requires
            0 <= control * friction <= 2_000_000_000_000,
            0 <= dt <= 1000,
    ;
    proof {
        lemma_div_toward_zero_shrinks(control * friction * dt, 1000);
    }
    let drop = mul_div(control * friction, dt, 1000);
    let keep = if lateral - drop > 0 {
        lateral - drop
    } else {
        0
    };
    proof {
        lemma_scale_down(velocity.x as int, keep as int, lateral as int);
        lemma_scale_down(velocity.z as int, keep as int, lateral as int);
    }
    velocity.x = mul_div(velocity.x, keep, lateral);
    velocity.z = mul_div(velocity.z, keep, lateral);
}

/// Accelerates the horizontal part of `velocity` toward `(dx, dz)` over `dt`
/// milliseconds, aiming at `wish_speed`. Along a direction no longer than
/// `UNIT`, the speed never drops and never passes `wish_speed` when it was
/// not already past it.
pub fn accelerate(dx: i64, dz: i64, wish_speed: i64, accel: i64, dt: i64, velocity: &mut Vec3)
    requires
        within(dx as int, UNIT as int),
        within(dz as int, UNIT as int),
        tuned_speed(wish_speed),
        tuned_rate(accel),
        valid_step(dt),
        old(velocity).is_speed(),
    ensures
        ({
            let a = accelerated(
                old(velocity).x as int,
                old(velocity).z as int,
                dx as int,
                dz as int,
                wish_speed as int,
                accel as int,
                dt as int,
            );
            final(velocity).x == a.0 && final(velocity).z == a.1
        }),
        final(velocity).y == old(velocity).y,
        final(velocity).bounded(2 * SPEED_LIMIT),
        dx * dx + dz * dz <= UNIT * UNIT ==> projection(
            old(velocity).x as int,
            old(velocity).z as int,
            dx as int,
            dz as int,
        ) <= projection(final(velocity).x as int, final(velocity).z as int, dx as int, dz as int),
        dx * dx + dz * dz <= UNIT * UNIT && projection(
            old(velocity).x as int,
            old(velocity).z as int,
            dx as int,
            dz as int,
        ) <= wish_speed ==> projection(
            final(velocity).x as int,
            final(velocity).z as int,
            dx as int,
            dz as int,
        ) <= wish_speed,
{
    proof {
        if dx * dx + dz * dz <= UNIT * UNIT {
            lemma_accelerate_step(
                velocity.x as int,
                velocity.z as int,
                dx as int,
                dz as int,
                wish_speed as int,
                accel as int,
                dt as int,
            );
        }
    }
    let vx = velocity.x;
    let vz = velocity.z;
    assert(within(vx * dx, 1_000_000_000_000) && within(vz * dz, 1_000_000_000_000))
        by (nonlinear_arith)
        requires
            within(vx as int, 1_000_000_000),
            within(vz as int, 1_000_000_000),
            within(dx as int, 1000),
            within(dz as int, 1000),
    ;
    let dot = vx * dx + vz * dz;
    proof {
        lemma_div_toward_zero_shrinks(dot as int, 1000);
    }
    let projection = mul_div(dot, 1, UNIT);
    let add_speed = wish_speed - projection;
    if add_speed <= 0 {
        return;
    }
    assert(0 <= accel * wish_speed <= 1_000_000_000) by (nonlinear_arith)
        requires
            0 <= accel <= 1000,
            0 <= wish_speed <= 1_000_000,
    ;
    assert(0 <= accel * wish_speed * dt <= 1_000_000_000_000) by (nonlinear_arith)
        requires
            0 <= accel * wish_speed <= 1_000_000_000,
            0 <= dt <= 1000,
    ;
    proof {
        lemma_div_toward_zero_shrinks(accel * wish_speed * dt, 1000);
    }
    let budget = mul_div(accel * wish_speed, dt, 1000);
    let accel_speed = if budget < add_speed {
        budget
    } else {
        add_speed
    };
    assert(0 <= accel_speed <= 1_000_000_000);
    assert(within(dx * accel_speed, 1_000_000_000_000) && within(
        dz * accel_speed,
        1_000_000_000_000,
    )) by (nonlinear_arith)
        requires
            within(dx as int, 1000),
            within(dz as int, 1000),
            0 <= accel_speed <= 1_000_000_000,
    ;
    proof {
        lemma_div_toward_zero_shrinks(dx * accel_speed, 1000);
        lemma_div_toward_zero_shrinks(dz * accel_speed, 1000);
        assert(abs(dx * accel_speed) <= 1000 * accel_speed) by (nonlinear_arith)
            requires
                within(dx as int, 1000),
                accel_speed >= 0,
        ;
        assert(abs(dz * accel_speed) <= 1000 * accel_speed) by (nonlinear_arith)
            requires
                within(dz as int, 1000),
                accel_speed >= 0,
        ;
        assert(abs(div_toward_zero(dx * accel_speed, 1000)) <= accel_speed);
        assert(abs(div_toward_zero(dz * accel_speed, 1000)) <= accel_speed);
    }
    let gx = mul_div(dx, accel_speed, UNIT);
    let gz = mul_div(dz, accel_speed, UNIT);
    velocity.x = vx + gx;
    velocity.z = vz + gz;
}

/// A direction no longer than `UNIT`: the unit direction of a vector.
pub proof fn lemma_unit_direction(wx: int, wz: int)
    ensures
        ({
            let d = unit_direction(wx, wz);
            &&& d.0 * d.0 + d.1 * d.1 <= UNIT * UNIT
            &&& within(d.0, UNIT as int)
            &&& within(d.1, UNIT as int)
        }),
{
    let n = wx * wx + wz * wz;
    let s = UNIT as int;
    assert(n >= 0) by (nonlinear_arith)
        requires
            n == wx * wx + wz * wz,
    ;
    if n != 0 {
        lemma_sqrt_ceil_bounds(n as nat);
        let c = sqrt_ceil(n as nat) as int;
        let dx = div_toward_zero(wx * s, c);
        let dz = div_toward_zero(wz * s, c);
        lemma_quotient_times(wx * s, c);
        lemma_quotient_times(wz * s, c);
        assert(abs(wx * s) == abs(wx) * s) by (nonlinear_arith)
            requires
                s == 1000,
        ;
        assert(abs(wz * s) == abs(wz) * s) by (nonlinear_arith)
            requires
                s == 1000,
        ;
        lemma_scaled_square(dx, c, wx, s);
        lemma_scaled_square(dz, c, wz, s);
        let x = dx * dx + dz * dz;
        assert(c * c * x == c * c * (dx * dx) + c * c * (dz * dz)) by (nonlinear_arith)
            requires
                x == dx * dx + dz * dz,
        ;
        assert(s * s * n == s * s * (wx * wx) + s * s * (wz * wz)) by (nonlinear_arith)
            requires
                n == wx * wx + wz * wz,
        ;
        assert(s * s * n <= s * s * (c * c)) by (nonlinear_arith)
            requires
                n <= c * c,
                s > 0,
        ;
        assert(x <= s * s) by (nonlinear_arith)
            requires
                c * c * x <= s * s * (c * c),
                c > 0,
        ;
    }
    let d = unit_direction(wx, wz);
    if n == 0 {
        assert(d.0 == 0 && d.1 == 0);
        assert(d.0 * d.0 + d.1 * d.1 == 0) by (nonlinear_arith)
            requires
                d.0 == 0,
                d.1 == 0,
        ;
    }
    assert(within(d.0, s) && within(d.1, s)) by (nonlinear_arith)
        requires
            d.0 * d.0 + d.1 * d.1 <= s * s,
            s == 1000,
    ;
}

proof fn lemma_abs_square(d: int)
    ensures
        abs(d) * abs(d) == d * d,
{
    if d < 0 {
        assert((-d) * (-d) == d * d) by (nonlinear_arith);
    }
}

/// From `|d| * c <= |w| * s`: `c * c * (d * d) <= s * s * (w * w)`.
proof fn lemma_scaled_square(d: int, c: int, w: int, s: int)
    requires
        abs(d) * c <= abs(w) * s,
        c > 0,
        s > 0,
    ensures
        c * c * (d * d) <= s * s * (w * w),
{
    let a = abs(d) * c;
    let b = abs(w) * s;
    assert(a >= 0) by (nonlinear_arith)
        requires
            a == abs(d) * c,
            abs(d) >= 0,
            c > 0,
    ;
    lemma_square_monotone(a, b);
    lemma_abs_square(d);
    lemma_abs_square(w);
    assert(a * a == c * c * (d * d)) by (nonlinear_arith)
        requires
            a == abs(d) * c,
            abs(d) * abs(d) == d * d,
    ;
    assert(b * b == s * s * (w * w)) by (nonlinear_arith)
        requires
            b == abs(w) * s,
            abs(w) * abs(w) == w * w,
    ;
}

/// `|div_toward_zero(a, c)| * c <= |a|`.
pub proof fn lemma_quotient_times(a: int, c: int)
    requires
        c > 0,
    ensures
        abs(div_toward_zero(a, c)) * c <= abs(a),
{
    let m = abs(a);
    vstd::arithmetic::div_mod::lemma_fundamental_div_mod(m, c);
    assert((m / c) * c <= m) by (nonlinear_arith)
        requires
            m == c * (m / c) + m % c,
            0 <= m % c,
    ;
    vstd::arithmetic::div_mod::lemma_div_pos_is_pos(m, c);
}

pub(crate) proof fn lemma_sqrt_ceil_at_least(n: nat, r: nat)
    requires
        r * r <= n,
    ensures
        r <= sqrt_ceil(n),
{
    lemma_sqrt_floor_bounds(n);
    lemma_sqrt_ceil_bounds(n);
    let f = sqrt_floor(n);
    if r > f {
        lemma_square_monotone(f + 1 as int, r as int);
    }
}

impl FpsController {
    /// Wish direction and wish speed of an input on the ground.
    fn wish_direction(&self, input: &FpsControllerInput) -> (r: (i64, i64, i64))
        requires
            self.wf(),
            input.wf(),
        ensures
            r.0 == self.wish(*input).0,
            r.1 == self.wish(*input).1,
            r.2 == self.wish(*input).2,
            r.0 * r.0 + r.1 * r.1 <= UNIT * UNIT,
            within(r.0 as int, UNIT as int),
            within(r.1 as int, UNIT as int),
            tuned_speed(r.2),
    {
        let mx = input.move_x as i64;
        let mz = input.move_z as i64;
        let hx = input.heading_x;
        let hz = input.heading_z;
        let fs = self.forward_speed;
        let ss = self.side_speed;
        assert(within(mz * fs, 1_000_000) && within(mx * ss, 1_000_000) && within(
            mz * fs * hx,
            1_000_000_000,
        ) && within(mx * ss * hz, 1_000_000_000) && within(mz * fs * hz, 1_000_000_000)
            && within(mx * ss * hx, 1_000_000_000)) by (nonlinear_arith)
            requires
                -1 <= mx <= 1,
                -1 <= mz <= 1,
                0 <= fs <= 1_000_000,
                0 <= ss <= 1_000_000,
                within(hx as int, 1000),
                within(hz as int, 1000),
        ;
        let raw_x = mz * fs * hx - mx * ss * hz;
        let raw_z = mz * fs * hz + mx * ss * hx;
        proof {
            lemma_div_toward_zero_shrinks(raw_x as int, 1000);
            lemma_div_toward_zero_shrinks(raw_z as int, 1000);
        }
        let wx = mul_div(raw_x, 1, UNIT);
        let wz = mul_div(raw_z, 1, UNIT);
        assert(within(wx as int, 2_000_000) && within(wz as int, 2_000_000)) by {
            assert(abs(div_toward_zero(raw_x as int, 1000)) * 1000 <= abs(raw_x as int)) by {
                lemma_quotient_times(raw_x as int, 1000);
            }
            assert(abs(div_toward_zero(raw_z as int, 1000)) * 1000 <= abs(raw_z as int)) by {
                lemma_quotient_times(raw_z as int, 1000);
            }
        }
        let (dx, dz, len) = normalize(wx, wz);
        let max_speed = if input.sprint {
            self.run_speed
        } else {
            self.walk_speed
        };
        let wish = if len < max_speed {
            len
        } else {
            max_speed
        };
        (dx, dz, wish)
    }

    /// One step in ground mode (see `ground_step`).
    fn ground_move(&mut self, input: &FpsControllerInput, grounded: bool, dt: i64) -> (r: Vec3)
        requires
            old(self).wf(),
            input.wf(),
            valid_step(dt),
        ensures
            (*final(self), r) == old(self).ground_step(*input, grounded, dt as int),
            final(self).wf(),
    {
        let start = self.velocity;
        let lateral = lateral_speed(&start);
        let (dx, dz, wish) = self.wish_direction(input);
        let mut end = start;
        let mut start_y = start.y;
        proof {
            assert(0 <= self.gravity * dt <= 1_000_000_000) by (nonlinear_arith)
                requires
                    0 <= self.gravity <= 1_000_000,
                    0 <= dt <= 1000,
            ;
            lemma_div_toward_zero_shrinks(self.gravity * dt, 1000);
        }
        if grounded {
            if self.ground_tick >= 1 {
                if lateral > self.friction_cutoff {
                    friction(lateral, self.friction, self.stop_speed, dt, &mut end);
                } else {
                    end.x = 0;
                    end.z = 0;
                }
                end.y = 0;
            }
            accelerate(dx, dz, wish, self.accel, dt, &mut end);
            end.x = clamp_speed(end.x);
            end.z = clamp_speed(end.z);
            if input.jump {
                start_y = self.jump_speed;
                end.y = start_y - mul_div(self.gravity, dt, 1000);
            }
            self.ground_tick = if self.ground_tick < 255 {
                self.ground_tick + 1
            } else {
                255
            };
        } else {
            self.ground_tick = 0;
            let air_wish = if wish < self.air_speed_cap {
                wish
            } else {
                self.air_speed_cap
            };
            accelerate(dx, dz, air_wish, self.air_acceleration, dt, &mut end);
            end.x = clamp_speed(end.x);
            end.z = clamp_speed(end.z);
            end.y = clamp_speed(start.y - mul_div(self.gravity, dt, 1000));
            let air = lateral_speed(&end);
            if air > self.max_air_speed {
                proof {
                    lemma_scale_down(end.x as int, self.max_air_speed as int, air as int);
                    lemma_scale_down(end.z as int, self.max_air_speed as int, air as int);
                }
                end.x = mul_div(end.x, self.max_air_speed, air);
                end.z = mul_div(end.z, self.max_air_speed, air);
            }
        }
        self.velocity = end;
        proof {
            lemma_div_toward_zero_shrinks(start.x + end.x, 2);
            lemma_div_toward_zero_shrinks(start_y + end.y, 2);
            lemma_div_toward_zero_shrinks(start.z + end.z, 2);
        }
        Vec3 {
            x: mul_div(start.x + end.x, 1, 2),
            y: mul_div(start_y + end.y, 1, 2),
            z: mul_div(start.z + end.z, 1, 2),
        }
    }

    /// One step in free-fly mode (see `fly_step`).
    fn fly_move(&mut self, input: &FpsControllerInput) -> (r: Vec3)
        requires
            old(self).wf(),
            input.wf(),
        ensures
            (*final(self), r) == old(self).fly_step(*input),
            final(self).wf(),
    {
        let v = self.velocity;
        if input.move_x == 0 && input.move_y == 0 && input.move_z == 0 {
            let f: i64 = if self.fly_friction < 0 {
                0
            } else if self.fly_friction > 1000 {
                1000
            } else {
                self.fly_friction
            };
            proof {
                lemma_scale_down(v.x as int, 1000 - f, 1000);
                lemma_scale_down(v.y as int, 1000 - f, 1000);
                lemma_scale_down(v.z as int, 1000 - f, 1000);
            }
            self.velocity = Vec3 {
                x: mul_div(v.x, 1000 - f, 1000),
                y: mul_div(v.y, 1000 - f, 1000),
                z: mul_div(v.z, 1000 - f, 1000),
            };
        } else {
            let speed = if input.sprint {
                self.fast_fly_speed
            } else {
                self.fly_speed
            };
            let mx = input.move_x as i64;
            let my = input.move_y as i64;
            let mz = input.move_z as i64;
            assert(0 <= mx * mx <= 1 && 0 <= my * my <= 1 && 0 <= mz * mz <= 1 && 1 <= mx * mx
                + my * my + mz * mz <= 3) by (nonlinear_arith)
                requires
                    -1 <= mx <= 1,
                    -1 <= my <= 1,
                    -1 <= mz <= 1,
                    mx != 0 || my != 0 || mz != 0,
            ;
            let k = mx * mx + my * my + mz * mz;
            let c = isqrt_ceil((k * UNIT * UNIT) as u64) as i64;
            proof {
                lemma_sqrt_ceil_at_least((k * UNIT * UNIT) as nat, 1000);
            }
            assert(within(mx * speed * UNIT, 1_000_000_000) && within(
                my * speed * UNIT,
                1_000_000_000,
            ) && within(mz * speed * UNIT, 1_000_000_000)) by (nonlinear_arith)
                requires
                    -1 <= mx <= 1,
                    -1 <= my <= 1,
                    -1 <= mz <= 1,
                    0 <= speed <= 1_000_000,
            ;
            proof {
                lemma_quotient_times(mx * speed * UNIT, c as int);
                lemma_quotient_times(my * speed * UNIT, c as int);
                lemma_quotient_times(mz * speed * UNIT, c as int);
                assert(forall|q: int|
                    #![trigger abs(q)]
                    abs(q) * c <= 1_000_000_000 ==> abs(q) <= 1_000_000) by {
                    assert forall|q: int| #![trigger abs(q)] abs(q) * c <= 1_000_000_000 implies abs(
                        q,
                    ) <= 1_000_000 by {
                        assert(abs(q) <= 1_000_000) by (nonlinear_arith)
                            requires
                                abs(q) * c <= 1_000_000_000,
                                c >= 1000,
                                abs(q) >= 0,
                        ;
                    }
                }
            }
            self.velocity = Vec3 {
                x: mul_div(mx * speed, UNIT, c),
                y: mul_div(my * speed, UNIT, c),
                z: mul_div(mz * speed, UNIT, c),
            };
        }
        let nv = self.velocity;
        assert(within(nv.x * (-input.heading_z), 1_000_000_000_000) && within(
            nv.z * input.heading_x,
            1_000_000_000_000,
        ) && within(nv.x * input.heading_x, 1_000_000_000_000) && within(
            nv.z * input.heading_z,
            1_000_000_000_000,
        ) && within(nv.x * (-input.heading_z) + nv.z * input.heading_x, 2_000_000_000_000)
            && within(nv.x * input.heading_x + nv.z * input.heading_z, 2_000_000_000_000))
            by (nonlinear_arith)
            requires
                within(nv.x as int, 1_000_000_000),
                within(nv.z as int, 1_000_000_000),
                within(input.heading_x as int, 1000),
                within(input.heading_z as int, 1000),
        ;
        proof {
            lemma_div_toward_zero_shrinks(nv.x * (-input.heading_z) + nv.z * input.heading_x, 1000);
            lemma_div_toward_zero_shrinks(nv.x * input.heading_x + nv.z * input.heading_z, 1000);
        }
        Vec3 {
            x: mul_div(nv.x * (-input.heading_z) + nv.z * input.heading_x, 1, UNIT),
            y: nv.y,
            z: mul_div(nv.x * input.heading_x + nv.z * input.heading_z, 1, UNIT),
        }
    }
}

impl FpsController {
    /// Applies one input (see `applied`).
    pub fn apply_input(&mut self, input: &FpsControllerInput, grounded: bool, dt: i64) -> (r: Vec3)
        requires
            old(self).wf(),
            input.wf(),
            valid_step(dt),
        ensures
            (*final(self), r) == old(self).applied(*input, grounded, dt as int),
            final(self).wf(),
    {
        if input.fly {
            self.move_mode = match self.move_mode {
                MoveMode::Noclip => MoveMode::Ground,
                MoveMode::Ground => MoveMode::Noclip,
            };
        }
        let r = match self.move_mode {
            MoveMode::Noclip => self.fly_move(input),
            MoveMode::Ground => self.ground_move(input, grounded, dt),
        };
        self.last_applied_serial = Some(input.serial);
        r
    }
}

/// Consumes queued inputs in serial order (see `run_inputs`): stale ones
/// are dropped, the others applied, all of them or only the first applied
/// one when `apply_single` is set. Returns the velocity for the physics
/// body from the last input applied; `None` when none was, in which case
/// nothing moves. `grounded` is the ground probe's answer for the body's
/// current position, and `dt` the step in milliseconds.
pub fn fps_controller_move(
    controller: &mut FpsController,
    input_queue: &mut FpsControllerInputQueue,
    grounded: bool,
    dt: i64,
) -> (r: Option<Vec3>)
    requires
        old(controller).wf(),
        old(input_queue).wf(),
        valid_step(dt),
    ensures
        final(controller).wf(),
        final(input_queue).wf(),
        ({
            let run = run_inputs(*old(controller), old(input_queue)@, grounded, dt as int);
            &&& *final(controller) == run.0
            &&& r == run.1
            &&& final(input_queue)@ == old(input_queue)@.skip(run.2 as int)
        }),
        not_before(final(controller).last_applied_serial, old(controller).last_applied_serial),
{
    let ghost c0 = *controller;
    let ghost q0 = input_queue@;
    proof {
        lemma_run_inputs_monotone(c0, q0, grounded, dt as int);
    }
    let mut last: Option<Vec3> = None;
    let mut taken: usize = 0;
    let total = input_queue.len();
    loop
        invariant_except_break
            run_from(*controller, input_queue@, grounded, dt as int, last) == (
                run_inputs(c0, q0, grounded, dt as int).0,
                run_inputs(c0, q0, grounded, dt as int).1,
            ),
            taken + run_inputs(*controller, input_queue@, grounded, dt as int).2 == run_inputs(
                c0,
                q0,
                grounded,
                dt as int,
            ).2,
        invariant
            controller.wf(),
            input_queue.wf(),
            valid_step(dt),
            total == q0.len(),
            0 <= taken <= total,
            input_queue@ == q0.skip(taken as int),
            controller.apply_single == c0.apply_single,
        ensures
            *controller == run_inputs(c0, q0, grounded, dt as int).0,
            last == run_inputs(c0, q0, grounded, dt as int).1,
            input_queue@ == q0.skip(run_inputs(c0, q0, grounded, dt as int).2 as int),
        decreases total - taken,
    {
        let ghost before = *controller;
        let ghost rest = input_queue@;
        proof {
            lemma_run_inputs_monotone(before, rest, grounded, dt as int);
        }
        match input_queue.pop_front() {
            None => {
                assert(input_queue@.len() == 0);
                break ;
            },
            Some(input) => {
                assert(rest[0] == input);
                taken = taken + 1;
                assert(input_queue@ == q0.skip(taken as int));
                let fresh = match controller.last_applied_serial {
                    None => true,
                    Some(last) => input.serial > last,
                };
                if fresh {
                    let linvel = controller.apply_input(&input, grounded, dt);
                    last = Some(linvel);
                    if controller.apply_single {
                        break ;
                    }
                }
            },
        }
    }
    last
}

impl FpsController {
    /// The tuning that a fresh controller starts with, at rest on the
    /// ground.
    pub open spec fn initial() -> FpsController {
        FpsController {
            last_applied_serial: None,
            move_mode: MoveMode::Ground,
            gravity: 23_000,
            walk_speed: 10_000,
            run_speed: 30_000,
            forward_speed: 30_000,
            side_speed: 30_000,
            air_speed_cap: 2_000,
            air_acceleration: 20,
            max_air_speed: 8_000,
            accel: 10,
            friction: 10,
            friction_cutoff: 100,
            jump_speed: 8_500,
            fly_speed: 10_000,
            fast_fly_speed: 30_000,
            fly_friction: 500,
            velocity: Vec3 { x: 0, y: 0, z: 0 },
            ground_tick: 0,
            stop_speed: 1_000,
            apply_single: false,
        }
    }
}

impl Default for FpsController {
    fn default() -> (r: FpsController)
        ensures
            r == FpsController::initial(),
            r.wf(),
    {
        FpsController {
            last_applied_serial: None,
            move_mode: MoveMode::Ground,
            gravity: 23_000,
            walk_speed: 10_000,
            run_speed: 30_000,
            forward_speed: 30_000,
            side_speed: 30_000,
            air_speed_cap: 2_000,
            air_acceleration: 20,
            max_air_speed: 8_000,
            accel: 10,
            friction: 10,
            friction_cutoff: 100,
            jump_speed: 8_500,
            fly_speed: 10_000,
            fast_fly_speed: 30_000,
            fly_friction: 500,
            velocity: Vec3::zero(),
            ground_tick: 0,
            stop_speed: 1_000,
            apply_single: false,
        }
    }
}

/// The unit direction of `(wx, wz)` (see `unit_direction`) and its length
/// rounded down.
pub fn normalize(wx: i64, wz: i64) -> (r: (i64, i64, i64))
    requires
        within(wx as int, 1_000_000_000),
        within(wz as int, 1_000_000_000),
    ensures
        (r.0 as int, r.1 as int) == unit_direction(wx as int, wz as int),
        r.2 as int == length2(wx as int, wz as int),
        r.0 * r.0 + r.1 * r.1 <= UNIT * UNIT,
        within(r.0 as int, UNIT as int),
        within(r.1 as int, UNIT as int),
        0 <= r.2 <= 2_000_000_000,
{
    proof {
        lemma_square_bound(wx as int, 1_000_000_000);
        lemma_square_bound(wz as int, 1_000_000_000);
        lemma_unit_direction(wx as int, wz as int);
    }
    let n = (wx * wx + wz * wz) as u64;
    let len = isqrt(n) as i64;
    let mut dx: i64 = 0;
    let mut dz: i64 = 0;
    if n != 0 {
        let c = isqrt_ceil(n) as i64;
        proof {
            lemma_sqrt_ceil_bounds(n as nat);
        }
        dx = mul_div(wx, UNIT, c);
        dz = mul_div(wz, UNIT, c);
    }
    (dx, dz, len)
}

} // verus!
