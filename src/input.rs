use std::collections::VecDeque;
use vstd::prelude::*;

use crate::vector::{UNIT, within};

verus! {

/// One axis of movement intent: `-1`, `0` or `1`.
pub open spec fn is_axis(a: i8) -> bool {
    -1 <= a <= 1
}

/// One step of player intent, numbered by a serial that strictly increases
/// per source.
///
/// The look direction is carried as the horizontal forward heading, a vector
/// of length at most `UNIT` (`heading_x`, `heading_z`); "right" is the heading
/// turned a quarter to the right, `(-heading_z, heading_x)`.
#[derive(Clone, Copy, Debug, PartialEq, Eq, Structural)]
pub struct FpsControllerInput {
    pub serial: u32,
    pub fly: bool,
    pub sprint: bool,
    pub jump: bool,
    pub crouch: bool,
    pub heading_x: i64,
    pub heading_z: i64,
    pub move_x: i8,
    pub move_y: i8,
    pub move_z: i8,
    pub most_recent_tick: Option<u32>,
}

impl FpsControllerInput {
    /// Axis values are in `[-1, 1]` and the heading is no longer than `UNIT`.
    pub open spec fn wf(self) -> bool {
        &&& is_axis(self.move_x)
        &&& is_axis(self.move_y)
        &&& is_axis(self.move_z)
        &&& within(self.heading_x as int, UNIT as int)
        &&& within(self.heading_z as int, UNIT as int)
        &&& self.heading_x * self.heading_x + self.heading_z * self.heading_z <= UNIT * UNIT
    }

    /// A command with no intent, looking down the negative z axis.
    pub fn idle(serial: u32) -> (r: FpsControllerInput)
        ensures
            r.wf(),
            r.serial == serial,
            r.move_x == 0 && r.move_y == 0 && r.move_z == 0,
            !r.fly && !r.sprint && !r.jump && !r.crouch,
            r.heading_x == 0 && r.heading_z == -UNIT,
            r.most_recent_tick.is_none(),
    {
        FpsControllerInput {
            serial,
            fly: false,
            sprint: false,
            jump: false,
            crouch: false,
            heading_x: 0,
            heading_z: -UNIT,
            move_x: 0,
            move_y: 0,
            move_z: 0,
            most_recent_tick: None,
        }
    }
}

/// Whether `input` is well formed (see `FpsControllerInput::wf`).
pub fn input_is_valid(input: &FpsControllerInput) -> (r: bool)
    ensures
        r == input.wf(),
{
    let axes = -1 <= input.move_x && input.move_x <= 1 && -1 <= input.move_y && input.move_y <= 1
        && -1 <= input.move_z && input.move_z <= 1;
    let hx = input.heading_x;
    let hz = input.heading_z;
    if !(axes && -UNIT <= hx && hx <= UNIT && -UNIT <= hz && hz <= UNIT) {
        return false;
    }
    assert(0 <= hx * hx <= 1_000_000 && 0 <= hz * hz <= 1_000_000) by (nonlinear_arith)
        requires
            -1000 <= hx <= 1000,
            -1000 <= hz <= 1000,
    ;
    hx * hx + hz * hz <= UNIT * UNIT
}

/// Axis value from a pair of opposing keys.
pub fn get_axis(positive: bool, negative: bool) -> (r: i8)
    ensures
        r == (if positive { 1i8 } else { 0i8 }) - (if negative { 1i8 } else { 0i8 }),
        is_axis(r),
{
    let p: i8 = if positive {
        1
    } else {
        0
    };
    let n: i8 = if negative {
        1
    } else {
        0
    };
    p - n
}

/// Serials of `s` strictly increase from front to back.
pub open spec fn serials_increasing(s: Seq<FpsControllerInput>) -> bool {
    forall|i: int, j: int| 0 <= i < j < s.len() ==> s[i].serial < s[j].serial
}

/// Every command of `s` is well formed.
pub open spec fn all_wf(s: Seq<FpsControllerInput>) -> bool {
    forall|i: int| 0 <= i < s.len() ==> s[i].wf()
}

/// Length of the longest prefix of `s` whose serials are all `<= serial`.
pub open spec fn acknowledged_len(s: Seq<FpsControllerInput>, serial: u32) -> nat
    decreases s.len(),
{
    if s.len() == 0 || s[0].serial > serial {
        0
    } else {
        1 + acknowledged_len(s.drop_first(), serial)
    }
}

pub proof fn lemma_acknowledged_len(s: Seq<FpsControllerInput>, serial: u32)
    ensures
        acknowledged_len(s, serial) <= s.len(),
        forall|i: int| 0 <= i < acknowledged_len(s, serial) ==> s[i].serial <= serial,
        acknowledged_len(s, serial) < s.len() ==> s[acknowledged_len(s, serial) as int].serial
            > serial,
    decreases s.len(),
{
    if s.len() > 0 && s[0].serial <= serial {
        lemma_acknowledged_len(s.drop_first(), serial);
        assert forall|i: int| 0 <= i < acknowledged_len(s, serial) implies s[i].serial
            <= serial by {
            if i > 0 {
                assert(s[i] == s.drop_first()[i - 1]);
            }
        }
    }
}

/// Discarding is idempotent: once the acknowledged prefix is gone, a second
/// discard with the same serial removes nothing, and what is left only ever
/// lost a prefix.
pub proof fn lemma_discard_idempotent(s: Seq<FpsControllerInput>, serial: u32)
    ensures
        acknowledged_len(s.skip(acknowledged_len(s, serial) as int), serial) == 0,
        s.skip(acknowledged_len(s, serial) as int) == s.subrange(
            acknowledged_len(s, serial) as int,
            s.len() as int,
        ),
{
    lemma_acknowledged_len(s, serial);
    let k = acknowledged_len(s, serial) as int;
    let rest = s.skip(k);
    if rest.len() > 0 {
        assert(rest[0] == s[k]);
    }
}

/// Issues input serials: each one is one more than the last.
pub struct FpsControllerSerial {
    pub next: u32,
}

impl FpsControllerSerial {
    pub fn new(start: u32) -> (r: FpsControllerSerial)
        ensures
            r.next == start,
    {
        FpsControllerSerial { next: start }
    }

    /// Hands out the next serial; `None` once the counter is exhausted.
    pub fn take(&mut self) -> (r: Option<u32>)
        ensures
            old(self).next < u32::MAX ==> r == Some(old(self).next) && final(self).next == old(
                self,
            ).next + 1,
            old(self).next == u32::MAX ==> r.is_none() && final(self).next == old(self).next,
    {
        if self.next < u32::MAX {
            let s = self.next;
            self.next = self.next + 1;
            Some(s)
        } else {
            None
        }
    }
}

/// FIFO of input commands. The client keeps its serials strictly
/// increasing (`push_newer`); the server queues what arrives, in arrival
/// order (`push_back`), and the integrator drops stale commands.
pub struct FpsControllerInputQueue {
    pub queue: VecDeque<FpsControllerInput>,
}

impl FpsControllerInputQueue {
    pub open spec fn view(&self) -> Seq<FpsControllerInput> {
        self.queue@
    }

    /// Every queued command is well formed.
    pub open spec fn wf(&self) -> bool {
        all_wf(self@)
    }

    pub fn new() -> (r: FpsControllerInputQueue)
        ensures
            r@ == Seq::<FpsControllerInput>::empty(),
            r.wf(),
            serials_increasing(r@),
    {
        FpsControllerInputQueue { queue: VecDeque::new() }
    }

    pub fn len(&self) -> (r: usize)
        ensures
            r == self@.len(),
    {
        self.queue.len()
    }

    /// Serial of the newest queued command, if any.
    pub fn last_serial(&self) -> (r: Option<u32>)
        ensures
            self@.len() == 0 ==> r.is_none(),
            self@.len() > 0 ==> r == Some(self@.last().serial),
    {
        let n = self.queue.len();
        if n == 0 {
            None
        } else {
            Some(self.queue[n - 1].serial)
        }
    }

    /// Appends `input` at the back, whatever its serial.
    pub fn push_back(&mut self, input: FpsControllerInput)
        requires
            old(self).wf(),
            input.wf(),
        ensures
            final(self).wf(),
            final(self)@ == old(self)@.push(input),
    {
        self.queue.push_back(input);
    }

    /// Appends `input` unless its serial does not exceed the newest queued one
    /// (a stale or duplicate command); tells whether it was appended.
    pub fn push_newer(&mut self, input: FpsControllerInput) -> (r: bool)
        requires
            old(self).wf(),
            input.wf(),
        ensures
            final(self).wf(),
            r == (old(self)@.len() == 0 || old(self)@.last().serial < input.serial),
            r ==> final(self)@ == old(self)@.push(input),
            !r ==> final(self)@ == old(self)@,
            serials_increasing(old(self)@) ==> serials_increasing(final(self)@),
    {
        let n = self.queue.len();
        if n == 0 || self.queue[n - 1].serial < input.serial {
            self.queue.push_back(input);
            true
        } else {
            false
        }
    }

    /// Removes and returns the oldest command.
    pub fn pop_front(&mut self) -> (r: Option<FpsControllerInput>)
        requires
            old(self).wf(),
        ensures
            final(self).wf(),
            old(self)@.len() == 0 ==> r.is_none() && final(self)@ == old(self)@,
            old(self)@.len() > 0 ==> r == Some(old(self)@[0]) && final(self)@ == old(
                self,
            )@.drop_first(),
            serials_increasing(old(self)@) ==> serials_increasing(final(self)@),
    {
        self.queue.pop_front()
    }

    /// Drops every command that the server has acknowledged: pops from the
    /// front while the front serial is `<= last_server_serial`. On a queue
    /// whose serials increase, every command left is newer than that.
    pub fn discard_acknowledged(&mut self, last_server_serial: u32)
        requires
            old(self).wf(),
        ensures
            final(self).wf(),
            final(self)@ == old(self)@.skip(acknowledged_len(old(self)@, last_server_serial) as int),
            forall|i: int|
                0 <= i < acknowledged_len(old(self)@, last_server_serial) ==> old(self)@[i].serial
                    <= last_server_serial,
            acknowledged_len(old(self)@, last_server_serial) < old(self)@.len() ==> old(
                self,
            )@[acknowledged_len(old(self)@, last_server_serial) as int].serial > last_server_serial,
            serials_increasing(old(self)@) ==> serials_increasing(final(self)@),
            serials_increasing(old(self)@) ==> forall|i: int|
                0 <= i < final(self)@.len() ==> final(self)@[i].serial > last_server_serial,
    {
        let ghost start = self@;
        proof {
            lemma_acknowledged_len(start, last_server_serial);
        }
        let ghost k = acknowledged_len(start, last_server_serial) as int;
        let total = self.queue.len();
        let mut removed: usize = 0;
        while self.queue.len() > 0 && self.queue[0].serial <= last_server_serial
            invariant
                0 <= removed <= k,
                total == start.len(),
                self@ == start.skip(removed as int),
                all_wf(start),
                k == acknowledged_len(start, last_server_serial),
                k <= start.len(),
                forall|i: int| 0 <= i < k ==> start[i].serial <= last_server_serial,
                k < start.len() ==> start[k].serial > last_server_serial,
            decreases self@.len(),
        {
            assert(self@[0] == start[removed as int]);
            self.queue.pop_front();
            removed = removed + 1;
        }
        assert(removed == k);
        proof {
            if serials_increasing(start) {
                assert forall|i: int| 0 <= i < self@.len() implies self@[i].serial
                    > last_server_serial by {
                    assert(self@[i] == start[k + i]);
                    if i > 0 {
                        assert(start[k].serial < start[k + i].serial);
                    }
                }
            }
        }
    }
}

/// Which movement keys are held this step, as the key bindings read them.
#[derive(Clone, Copy, Debug, PartialEq, Eq, Structural)]
pub struct KeyState {
    pub forward: bool,
    pub back: bool,
    pub left: bool,
    pub right: bool,
    pub up: bool,
    pub down: bool,
    pub sprint: bool,
    pub jump: bool,
    /// The fly key went down this step.
    pub fly_pressed: bool,
    pub crouch: bool,
}

/// Whether local input is read at all.
#[derive(Clone, Copy, Debug, PartialEq, Eq, Structural)]
pub struct FpsControllerConfig {
    pub enable_input: bool,
}

/// The input command of one local step: the held keys as axes and flags,
/// the look heading, the next serial, and the newest snapshot tick received.
pub open spec fn command_of(
    serial: u32,
    keys: KeyState,
    heading_x: i64,
    heading_z: i64,
    most_recent_tick: Option<u32>,
) -> FpsControllerInput {
    FpsControllerInput {
        serial,
        fly: keys.fly_pressed,
        sprint: keys.sprint,
        jump: keys.jump,
        crouch: keys.crouch,
        heading_x,
        heading_z,
        move_x: ((if keys.right { 1int } else { 0int }) - (if keys.left { 1int } else { 0int })) as i8,
        move_y: ((if keys.up { 1int } else { 0int }) - (if keys.down { 1int } else { 0int })) as i8,
        move_z: ((if keys.forward { 1int } else { 0int }) - (if keys.back { 1int } else { 0int })) as i8,
        most_recent_tick,
    }
}

/// Builds this step's input command from the held keys, the look heading
/// and the newest snapshot tick, numbered with the next serial, and appends
/// it to the local queue; the same command is returned for sending. `None`,
/// with the counter and the queue left alone, when input is disabled or
/// serials are exhausted.
pub fn fps_controller_input(
    config: &FpsControllerConfig,
    keys: &KeyState,
    heading_x: i64,
    heading_z: i64,
    most_recent_tick: Option<u32>,
    serial: &mut FpsControllerSerial,
    input_queue: &mut FpsControllerInputQueue,
) -> (r: Option<FpsControllerInput>)
    requires
        old(input_queue).wf(),
        within(heading_x as int, UNIT as int),
        within(heading_z as int, UNIT as int),
        heading_x * heading_x + heading_z * heading_z <= UNIT * UNIT,
        old(input_queue)@.len() > 0 ==> old(input_queue)@.last().serial < old(serial).next,
    ensures
        final(input_queue).wf(),
        serials_increasing(old(input_queue)@) ==> serials_increasing(final(input_queue)@),
        (config.enable_input && old(serial).next < u32::MAX) ==> {
            let c = command_of(old(serial).next, *keys, heading_x, heading_z, most_recent_tick);
            &&& r == Some(c)
            &&& c.wf()
            &&& final(serial).next == old(serial).next + 1
            &&& final(input_queue)@ == old(input_queue)@.push(c)
        },
        !(config.enable_input && old(serial).next < u32::MAX) ==> r is None && final(serial).next
            == old(serial).next && final(input_queue)@ == old(input_queue)@,
        final(input_queue)@.len() > 0 ==> final(input_queue)@.last().serial < final(serial).next,
{
    if !config.enable_input {
        return None;
    }
    let s = match serial.take() {
        None => {
            return None;
        },
        Some(s) => s,
    };
    let input = FpsControllerInput {
        serial: s,
        fly: keys.fly_pressed,
        sprint: keys.sprint,
        jump: keys.jump,
        crouch: keys.crouch,
        heading_x,
        heading_z,
        move_x: get_axis(keys.right, keys.left),
        move_y: get_axis(keys.up, keys.down),
        move_z: get_axis(keys.forward, keys.back),
        most_recent_tick,
    };
    let pushed = input_queue.push_newer(input);
    assert(pushed);
    Some(input)
}

} // verus!
