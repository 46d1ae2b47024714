use vstd::prelude::*;

use crate::input::{FpsControllerInput, FpsControllerInputQueue, all_wf};
use crate::vector::{
    POSITION_LIMIT, UNIT, Vec3, clamp, div_toward_zero, isqrt_ceil, lemma_div_toward_zero_shrinks,
    mul_div, sqrt_ceil,
};
use crate::controller::{lemma_quotient_times, lemma_sqrt_ceil_at_least};

verus! {

/// Speed of the simplified kinematic movement, in millimetres per second.
pub const PLAYER_MOVE_SPEED: i64 = 5000;

/// Time slice of one input step, in milliseconds.
pub const STEP_MS: i64 = 16;

/// Distance covered by one input step along one axis, in millimetres
/// (`PLAYER_MOVE_SPEED * STEP_MS / 1000`).
pub const STEP_DISTANCE: i64 = 80;

/// Horizontal offset of one input step: the (x, z) movement intent scaled to
/// `STEP_DISTANCE` (its length rounded up divides it); none without intent.
pub open spec fn step_offset(input: FpsControllerInput) -> (int, int) {
    let k = input.move_x * input.move_x + input.move_z * input.move_z;
    if k == 0 {
        (0, 0)
    } else {
        let c = sqrt_ceil((k * UNIT * UNIT) as nat) as int;
        (
            div_toward_zero(input.move_x * STEP_DISTANCE * UNIT, c),
            div_toward_zero(input.move_z * STEP_DISTANCE * UNIT, c),
        )
    }
}

/// A translation moved by one input step, held inside the world bounds.
pub open spec fn kinematic_step(t: Vec3, input: FpsControllerInput) -> Vec3 {
    let o = step_offset(input);
    Vec3 {
        x: clamp(t.x + o.0, POSITION_LIMIT as int) as i64,
        y: t.y,
        z: clamp(t.z + o.1, POSITION_LIMIT as int) as i64,
    }
}

/// `t` moved by each input of `inputs` in order.
pub open spec fn replayed(t: Vec3, inputs: Seq<FpsControllerInput>) -> Vec3
    decreases inputs.len(),
{
    if inputs.len() == 0 {
        t
    } else {
        replayed(kinematic_step(t, inputs[0]), inputs.drop_first())
    }
}

/// Moves a translation by one input step.
pub fn step_translation(t: Vec3, input: &FpsControllerInput) -> (r: Vec3)
    requires
        t.is_position(),
        input.wf(),
    ensures
        r == kinematic_step(t, *input),
        r.is_position(),
{
    let mx = input.move_x as i64;
    let mz = input.move_z as i64;
    assert(0 <= mx * mx <= 1 && 0 <= mz * mz <= 1) by (nonlinear_arith)
        requires
            -1 <= mx <= 1,
            -1 <= mz <= 1,
    ;
    let k = mx * mx + mz * mz;
    if k == 0 {
        return t;
    }
    let c = isqrt_ceil((k * UNIT * UNIT) as u64) as i64;
    proof {
        lemma_sqrt_ceil_at_least((k * UNIT * UNIT) as nat, 1000);
    }
    assert(within_step(mx * STEP_DISTANCE * UNIT) && within_step(mz * STEP_DISTANCE * UNIT))
        by (nonlinear_arith)
        requires
            -1 <= mx <= 1,
            -1 <= mz <= 1,
    ;
    proof {
        lemma_quotient_times(mx * STEP_DISTANCE * UNIT, c as int);
        lemma_quotient_times(mz * STEP_DISTANCE * UNIT, c as int);
        lemma_div_toward_zero_shrinks(mx * STEP_DISTANCE * UNIT, c as int);
        lemma_div_toward_zero_shrinks(mz * STEP_DISTANCE * UNIT, c as int);
    }
    let ox = mul_div(mx * STEP_DISTANCE, UNIT, c);
    let oz = mul_div(mz * STEP_DISTANCE, UNIT, c);
    Vec3 { x: clamp_position(t.x + ox), y: t.y, z: clamp_position(t.z + oz) }
}

pub open spec fn within_step(a: int) -> bool {
    -80_000 <= a <= 80_000
}

fn clamp_position(v: i64) -> (r: i64)
    ensures
        r as int == clamp(v as int, POSITION_LIMIT as int),
{
    if v > POSITION_LIMIT {
        POSITION_LIMIT
    } else if v < -POSITION_LIMIT {
        -POSITION_LIMIT
    } else {
        v
    }
}

/// Replays the queued inputs from `authoritative`: the translation the
/// server reported, moved by each unacknowledged input in order.
pub fn replay(authoritative: Vec3, queue: &FpsControllerInputQueue) -> (r: Vec3)
    requires
        authoritative.is_position(),
        queue.wf(),
    ensures
        r == replayed(authoritative, queue@),
        r.is_position(),
{
    let n = queue.queue.len();
    let mut t = authoritative;
    let mut i: usize = 0;
    assert(queue@.skip(0) =~= queue@);
    while i < n
        invariant
            n == queue@.len(),
            0 <= i <= n,
            t.is_position(),
            all_wf(queue@),
            replayed(t, queue@.skip(i as int)) == replayed(authoritative, queue@),
        decreases n - i,
    {
        let input = queue.queue[i];
        assert(queue@.skip(i as int).drop_first() =~= queue@.skip(i + 1));
        t = step_translation(t, &input);
        i = i + 1;
    }
    assert(queue@.skip(n as int).len() == 0);
    t
}

/// Reconciliation is a function of the authoritative translation and the
/// remaining queued inputs alone: the same two give the same result.
pub proof fn lemma_replay_deterministic(
    a: Vec3,
    b: Vec3,
    qa: Seq<FpsControllerInput>,
    qb: Seq<FpsControllerInput>,
)
    requires
        a == b,
        qa == qb,
    ensures
        replayed(a, qa) == replayed(b, qb),
{
}

} // verus!
