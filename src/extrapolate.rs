use vstd::prelude::*;

use crate::vector::{Vec3, div_toward_zero, within, POSITION_LIMIT};

verus! {

/// Number of server ticks per second of simulated time.
pub const TICKS_PER_SECOND: i64 = 60;

/// Dead reckoning of an entity that this client does not control: the
/// velocity last reported by the server, and the tick of that report.
#[derive(Clone, Copy, Debug, PartialEq, Eq, Structural)]
pub struct VelocityExtrapolate {
    pub velocity: Vec3,
    pub base_tick: u32,
}

/// One component moved at `v` (per second) for `ticks` ticks.
pub open spec fn travel(p: i64, v: i64, ticks: int) -> int {
    p + div_toward_zero(v * ticks, TICKS_PER_SECOND as int)
}

impl VelocityExtrapolate {
    pub open spec fn wf(self) -> bool {
        self.velocity.is_speed()
    }

    /// Where an entity last seen at `base_translation` stands at `tick`.
    pub open spec fn extrapolated(self, tick: u32, base_translation: Vec3) -> Vec3 {
        if tick <= self.base_tick {
            base_translation
        } else {
            let ticks = tick - self.base_tick;
            Vec3 {
                x: travel(base_translation.x, self.velocity.x, ticks) as i64,
                y: travel(base_translation.y, self.velocity.y, ticks) as i64,
                z: travel(base_translation.z, self.velocity.z, ticks) as i64,
            }
        }
    }

    pub fn new() -> (r: VelocityExtrapolate)
        ensures
            r.wf(),
            r.velocity == (Vec3 { x: 0, y: 0, z: 0 }),
            r.base_tick == 0,
    {
        VelocityExtrapolate { velocity: Vec3::zero(), base_tick: 0 }
    }

    /// Records the velocity and tick of a fresh server report.
    pub fn refresh(&mut self, velocity: Vec3, tick: u32)
        ensures
            final(self).velocity == velocity,
            final(self).base_tick == tick,
    {
        self.velocity = velocity;
        self.base_tick = tick;
    }

    /// Linear dead reckoning: the base translation moved at the last known
    /// velocity for `tick - base_tick` ticks; the base translation itself when
    /// `tick` is not past the base tick.
    pub fn apply(&self, tick: u32, base_translation: Vec3) -> (r: Vec3)
        requires
            self.wf(),
            base_translation.is_position(),
        ensures
            r == self.extrapolated(tick, base_translation),
    {
        if tick <= self.base_tick {
            return base_translation;
        }
        let ticks = tick - self.base_tick;
        Vec3 {
            x: advance(base_translation.x, self.velocity.x, ticks),
            y: advance(base_translation.y, self.velocity.y, ticks),
            z: advance(base_translation.z, self.velocity.z, ticks),
        }
    }
}

fn advance(p: i64, v: i64, ticks: u32) -> (r: i64)
    requires
        within(p as int, POSITION_LIMIT as int),
        within(v as int, crate::vector::SPEED_LIMIT as int),
    ensures
        r as int == travel(p, v, ticks as int),
{
    assert(within(v * ticks, 4_300_000_000_000_000_000)) by (nonlinear_arith)
        requires
            within(v as int, 1_000_000_000),
            0 <= ticks <= u32::MAX,
    ;
    let prod = v as i128 * ticks as i128;
    let moved: i128 = if prod >= 0 {
        prod / 60
    } else {
        -((-prod) / 60)
    };
    (p as i128 + moved) as i64
}

/// Extrapolating to the base tick gives the base translation, and sixty
/// ticks later it gives the base translation plus one second of velocity.
pub proof fn lemma_extrapolation_continuity(e: VelocityExtrapolate, t: Vec3)
    requires
        e.base_tick as int + TICKS_PER_SECOND <= u32::MAX,
    ensures
        e.extrapolated(e.base_tick, t) == t,
        e.extrapolated((e.base_tick + TICKS_PER_SECOND) as u32, t) == (Vec3 {
            x: (t.x + e.velocity.x) as i64,
            y: (t.y + e.velocity.y) as i64,
            z: (t.z + e.velocity.z) as i64,
        }),
{
    let later = (e.base_tick + TICKS_PER_SECOND) as u32;
    assert(later - e.base_tick == 60);
    lemma_one_second(e.velocity.x);
    lemma_one_second(e.velocity.y);
    lemma_one_second(e.velocity.z);
}

proof fn lemma_one_second(v: i64)
    ensures
        div_toward_zero(v * 60, 60) == v,
{
    assert((v * 60) / 60 == v);
    assert((-(v * 60)) / 60 == -v);
}

} // verus!
